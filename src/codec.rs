use vstd::prelude::*;
use crate::crypto::{signature_verifies, verify_with};
use crate::event::{
    events_view, ActionModel, Event, EventAction, EventModel, PUBLIC_ID_SIZE, SIGNATURE_SIZE,
};

verus! {

/// Bytes of the common part of a frame: tag, number, time and author.
pub const HEADER_SIZE: usize = 78;

/// Big-endian bytes of a `u32`.
pub open spec fn u32_be(v: u32) -> Seq<u8> {
    seq![(v >> 24u32) as u8, (v >> 16u32) as u8, (v >> 8u32) as u8, v as u8]
}

/// Big-endian bytes of a `u64`.
pub open spec fn u64_be(v: u64) -> Seq<u8> {
    u32_be((v >> 32u64) as u32) + u32_be(v as u32)
}

/// The two bytes that tell the kind of action.
pub open spec fn tag_of(a: ActionModel) -> Seq<u8> {
    match a {
        ActionModel::Repudiation { .. } => seq![0u8, 2u8],
        ActionModel::Declaration { .. } => seq![0u8, 3u8],
    }
}

/// The bytes that an action carries.
pub open spec fn payload_of(a: ActionModel) -> Seq<u8> {
    match a {
        ActionModel::Repudiation { event } => u32_be(event),
        ActionModel::Declaration { with } => with,
    }
}

/// The bytes that the signatures of an event sign.
pub open spec fn message_of(e: EventModel) -> Seq<u8> {
    tag_of(e.action) + u32_be(e.number) + u64_be(e.time) + e.author + payload_of(e.action)
}

/// Signatures laid end to end.
pub open spec fn flatten(p: Seq<Seq<u8>>) -> Seq<u8>
    decreases p.len(),
{
    if p.len() == 0 {
        Seq::empty()
    } else {
        flatten(p.drop_last()) + p.last()
    }
}

/// The frame of an event: its message, the number of its signatures in one
/// byte, then the signatures.
pub open spec fn frame_of(e: EventModel) -> Seq<u8> {
    message_of(e) + seq![e.proof.len() as u8] + flatten(e.proof)
}

/// The frames of a sequence of events, one after another.
pub open spec fn stream_of(evs: Seq<EventModel>) -> Seq<u8>
    decreases evs.len(),
{
    if evs.len() == 0 {
        Seq::empty()
    } else {
        frame_of(evs[0]) + stream_of(evs.drop_first())
    }
}

/// The event's signatures verify: the author's in slot 0 and, when a
/// declaration carries a slot 1, the declared identity's there.
pub open spec fn proofs_verify(e: EventModel) -> bool {
    &&& e.wf()
    &&& e.proof.len() >= 1
    &&& signature_verifies(e.author, message_of(e), e.proof[0])
    &&& (e.proof.len() >= 2 ==> (e.action matches ActionModel::Declaration { with }
        && signature_verifies(with, message_of(e), e.proof[1])))
}

/// Each event is well sized and carries exactly the signatures its action asks for.
pub open spec fn all_complete(evs: Seq<EventModel>) -> bool {
    forall|i: int| 0 <= i < evs.len() ==> (#[trigger] evs[i]).wf() && evs[i].is_complete()
}

proof fn lemma_u32_round_trip(v: u32, a: u8, b: u8, c: u8, d: u8)
    ensures
        ({
            let w = ((a as u32) << 24u32) | ((b as u32) << 16u32) | ((c as u32) << 8u32) | (d as u32);
            &&& (w >> 24u32) as u8 == a
            &&& (w >> 16u32) as u8 == b
            &&& (w >> 8u32) as u8 == c
            &&& w as u8 == d
        }),
        ((((v >> 24u32) as u8) as u32) << 24u32) | ((((v >> 16u32) as u8) as u32) << 16u32) | ((((v
            >> 8u32) as u8) as u32) << 8u32) | ((v as u8) as u32) == v,
{
    assert(((((v >> 24u32) as u8) as u32) << 24u32) | ((((v >> 16u32) as u8) as u32) << 16u32) | ((((v
        >> 8u32) as u8) as u32) << 8u32) | ((v as u8) as u32) == v) by (bit_vector);
    let w = ((a as u32) << 24u32) | ((b as u32) << 16u32) | ((c as u32) << 8u32) | (d as u32);
    assert((w >> 24u32) as u8 == a && (w >> 16u32) as u8 == b && (w >> 8u32) as u8 == c && w as u8
        == d) by (bit_vector)
        requires
            w == ((a as u32) << 24u32) | ((b as u32) << 16u32) | ((c as u32) << 8u32) | (d as u32),
    ;
}

proof fn lemma_u64_round_trip(v: u64, hi: u32, lo: u32)
    ensures
        ({
            let w = ((hi as u64) << 32u64) | (lo as u64);
            (w >> 32u64) as u32 == hi && w as u32 == lo
        }),
        ((((v >> 32u64) as u32) as u64) << 32u64) | (((v as u32) as u64)) == v,
{
    assert(((((v >> 32u64) as u32) as u64) << 32u64) | (((v as u32) as u64)) == v) by (bit_vector);
    let w = ((hi as u64) << 32u64) | (lo as u64);
    assert((w >> 32u64) as u32 == hi && w as u32 == lo) by (bit_vector)
        requires
            w == ((hi as u64) << 32u64) | (lo as u64),
    ;
}

proof fn lemma_u32_be_injective(a: u32, b: u32)
    requires
        u32_be(a) == u32_be(b),
    ensures
        a == b,
{
    let sa = u32_be(a);
    let sb = u32_be(b);
    assert(sa[0] == sb[0] && sa[1] == sb[1] && sa[2] == sb[2] && sa[3] == sb[3]);
    lemma_u32_round_trip(a, 0, 0, 0, 0);
    lemma_u32_round_trip(b, 0, 0, 0, 0);
}

proof fn lemma_u64_be_injective(a: u64, b: u64)
    requires
        u64_be(a) == u64_be(b),
    ensures
        a == b,
{
    let ha = (a >> 32u64) as u32;
    let hb = (b >> 32u64) as u32;
    let la = a as u32;
    let lb = b as u32;
    assert(u32_be(ha) == u64_be(a).subrange(0, 4));
    assert(u32_be(hb) == u64_be(b).subrange(0, 4));
    assert(u32_be(la) == u64_be(a).subrange(4, 8));
    assert(u32_be(lb) == u64_be(b).subrange(4, 8));
    lemma_u32_be_injective(ha, hb);
    lemma_u32_be_injective(la, lb);
    lemma_u64_round_trip(a, 0, 0);
    lemma_u64_round_trip(b, 0, 0);
}

proof fn lemma_flatten_len(p: Seq<Seq<u8>>, n: nat)
    requires
        forall|i: int| 0 <= i < p.len() ==> (#[trigger] p[i]).len() == n,
    ensures
        flatten(p).len() == p.len() * n,
    decreases p.len(),
{
    if p.len() > 0 {
        lemma_flatten_len(p.drop_last(), n);
        assert(p.len() * n == (p.len() - 1) * n + n) by (nonlinear_arith);
    }
}

/// Size of the frame of a well-sized event.
pub open spec fn frame_size(m: EventModel) -> nat {
    (HEADER_SIZE + payload_of(m.action).len() + 1 + SIGNATURE_SIZE * m.proof.len()) as nat
}

/// The place of each field in the frame of a well-sized, complete event.
proof fn lemma_frame_layout(m: EventModel)
    requires
        m.wf(),
        m.is_complete(),
    ensures
        ({
            let f = frame_of(m);
            let pl = payload_of(m.action).len() as int;
            &&& pl == 4 || pl == 64
            &&& f.len() == frame_size(m)
            &&& f.subrange(0, 2) == tag_of(m.action)
            &&& f.subrange(2, 6) == u32_be(m.number)
            &&& f.subrange(6, 14) == u64_be(m.time)
            &&& f.subrange(14, 78) == m.author
            &&& f.subrange(78, 78 + pl) == payload_of(m.action)
            &&& f[78 + pl] == m.proof.len() as u8
            &&& f.subrange(78 + pl + 1, 78 + pl + 65) == m.proof[0]
            &&& (m.proof.len() == 2 ==> f.subrange(78 + pl + 65, 78 + pl + 129) == m.proof[1])
        }),
{
    let f = frame_of(m);
    let msg = message_of(m);
    let pl = payload_of(m.action).len() as int;
    lemma_flatten_len(m.proof, SIGNATURE_SIZE as nat);
    assert(msg.len() == 78 + pl);
    assert(f.subrange(0, 2) =~= tag_of(m.action));
    assert(f.subrange(2, 6) =~= u32_be(m.number));
    assert(f.subrange(6, 14) =~= u64_be(m.time));
    assert(f.subrange(14, 78) =~= m.author);
    assert(f.subrange(78, 78 + pl) =~= payload_of(m.action));
    assert(f[78 + pl] == m.proof.len() as u8);
    let p = m.proof;
    if p.len() == 2 {
        assert(p.drop_last().drop_last() =~= Seq::<Seq<u8>>::empty());
        assert(flatten(p.drop_last()) =~= p[0]);
        assert(flatten(p) =~= p[0] + p[1]);
        assert(f.subrange(78 + pl + 1, 78 + pl + 65) =~= m.proof[0]);
        assert(f.subrange(78 + pl + 65, 78 + pl + 129) =~= m.proof[1]);
    } else {
        assert(p.drop_last() =~= Seq::<Seq<u8>>::empty());
        assert(flatten(p) =~= p[0]);
        assert(f.subrange(78 + pl + 1, 78 + pl + 65) =~= m.proof[0]);
    }
}

/// Two frames that both begin the same bytes are the frame of one event.
proof fn lemma_frame_unique(m1: EventModel, m2: EventModel, s: Seq<u8>)
    requires
        m1.wf() && m1.is_complete(),
        m2.wf() && m2.is_complete(),
        frame_of(m1).len() <= s.len(),
        frame_of(m2).len() <= s.len(),
        s.subrange(0, frame_of(m1).len() as int) == frame_of(m1),
        s.subrange(0, frame_of(m2).len() as int) == frame_of(m2),
    ensures
        m1 == m2,
{
    lemma_frame_layout(m1);
    lemma_frame_layout(m2);
    let f1 = frame_of(m1);
    let f2 = frame_of(m2);
    assert forall|i: int| 0 <= i < 78 implies f1[i] == f2[i] by {
        assert(f1[i] == s.subrange(0, f1.len() as int)[i]);
        assert(f2[i] == s.subrange(0, f2.len() as int)[i]);
    }
    assert(f1.subrange(0, 2)[1] == f2.subrange(0, 2)[1]);
    assert(tag_of(m1.action)[1] == tag_of(m2.action)[1]);
    let pl = payload_of(m1.action).len() as int;
    assert(pl == payload_of(m2.action).len());
    assert(f1[78 + pl] == s[78 + pl]);
    assert(f2[78 + pl] == s[78 + pl]);
    assert(m1.proof.len() == m2.proof.len());
    assert(f1.len() == f2.len());
    assert(f1 =~= f2) by {
        assert forall|i: int| 0 <= i < f1.len() implies f1[i] == f2[i] by {
            assert(f1[i] == s.subrange(0, f1.len() as int)[i]);
            assert(f2[i] == s.subrange(0, f2.len() as int)[i]);
        }
    }
    assert(f1.subrange(2, 6) == f2.subrange(2, 6));
    lemma_u32_be_injective(m1.number, m2.number);
    assert(f1.subrange(6, 14) == f2.subrange(6, 14));
    lemma_u64_be_injective(m1.time, m2.time);
    assert(m1.author == m2.author);
    assert(payload_of(m1.action) == payload_of(m2.action));
    match m1.action {
        ActionModel::Repudiation { event: e1 } => {
            lemma_u32_be_injective(e1, m2.action->Repudiation_event);
        },
        _ => {},
    }
    assert(m1.action == m2.action);
    assert(m1.proof[0] == m2.proof[0]);
    if m1.proof.len() == 2 {
        assert(m1.proof[1] == m2.proof[1]);
    }
    assert(m1.proof =~= m2.proof);
}

#[verifier::rlimit(100)]
proof fn lemma_frame_matches(b: Seq<u8>, pos: int, m: EventModel)
    requires
        m.wf(),
        m.is_complete(),
        0 <= pos,
        pos + frame_size(m) <= b.len(),
        b.subrange(pos, pos + 2) == tag_of(m.action),
        b.subrange(pos + 2, pos + 6) == u32_be(m.number),
        b.subrange(pos + 6, pos + 14) == u64_be(m.time),
        b.subrange(pos + 14, pos + 78) == m.author,
        b.subrange(pos + 78, pos + 78 + payload_of(m.action).len()) == payload_of(m.action),
        b[pos + 78 + payload_of(m.action).len()] == m.proof.len() as u8,
        b.subrange(pos + 78 + payload_of(m.action).len() + 1, pos + 78 + payload_of(m.action).len() + 65)
            == m.proof[0],
        m.proof.len() == 2 ==> b.subrange(pos + 78 + payload_of(m.action).len() + 65, pos + 78
            + payload_of(m.action).len() + 129) == m.proof[1],
    ensures
        b.subrange(pos, pos + frame_size(m)) == frame_of(m),
{
    lemma_frame_layout(m);
    let f = frame_of(m);
    let pl = payload_of(m.action).len() as int;
    let size = frame_size(m) as int;
    let w = b.subrange(pos, pos + size);
    assert forall|i: int| 0 <= i < size implies w[i] == f[i] by {
        if i < 2 {
            assert(f[i] == f.subrange(0, 2)[i]);
            assert(w[i] == b.subrange(pos, pos + 2)[i]);
        } else if i < 6 {
            assert(f[i] == f.subrange(2, 6)[i - 2]);
            assert(w[i] == b.subrange(pos + 2, pos + 6)[i - 2]);
        } else if i < 14 {
            assert(f[i] == f.subrange(6, 14)[i - 6]);
            assert(w[i] == b.subrange(pos + 6, pos + 14)[i - 6]);
        } else if i < 78 {
            assert(f[i] == f.subrange(14, 78)[i - 14]);
            assert(w[i] == b.subrange(pos + 14, pos + 78)[i - 14]);
        } else if i < 78 + pl {
            assert(f[i] == f.subrange(78, 78 + pl)[i - 78]);
            assert(w[i] == b.subrange(pos + 78, pos + 78 + pl)[i - 78]);
        } else if i == 78 + pl {
        } else if i < 78 + pl + 65 {
            assert(f[i] == f.subrange(78 + pl + 1, 78 + pl + 65)[i - 79 - pl]);
            assert(w[i] == b.subrange(pos + 78 + pl + 1, pos + 78 + pl + 65)[i - 79 - pl]);
        } else {
            assert(f[i] == f.subrange(78 + pl + 65, 78 + pl + 129)[i - 143 - pl]);
            assert(w[i] == b.subrange(pos + 78 + pl + 65, pos + 78 + pl + 129)[i - 143 - pl]);
        }
    }
    assert(w =~= f);
}

fn push_u32(out: &mut Vec<u8>, v: u32)
    ensures
        final(out)@ == old(out)@ + u32_be(v),
{
    out.push((v >> 24u32) as u8);
    out.push((v >> 16u32) as u8);
    out.push((v >> 8u32) as u8);
    out.push(v as u8);
    assert(final(out)@ =~= old(out)@ + u32_be(v));
}

fn push_bytes(out: &mut Vec<u8>, b: &Vec<u8>)
    ensures
        final(out)@ == old(out)@ + b@,
{
    let ghost start = out@;
    let mut i: usize = 0;
    while i < b.len()
        invariant
            i <= b@.len(),
            out@ == start + b@.take(i as int),
        decreases b@.len() - i,
    {
        out.push(b[i]);
        i = i + 1;
        assert(out@ =~= start + b@.take(i as int));
    }
    assert(b@.take(i as int) =~= b@);
}

fn read_u32(b: &Vec<u8>, pos: usize) -> (r: u32)
    requires
        pos + 4 <= b@.len(),
    ensures
        u32_be(r) == b@.subrange(pos as int, pos + 4),
{
    // The length of a vector fits in usize, so the indices below do too.
    let len = b.len();
    assert(pos + 3 < len);
    let r = ((b[pos] as u32) << 24u32) | ((b[pos + 1] as u32) << 16u32) | ((b[pos + 2] as u32) << 8u32)
        | (b[pos + 3] as u32);
    proof {
        lemma_u32_round_trip(0, b@[pos as int], b@[pos + 1], b@[pos + 2], b@[pos + 3]);
        assert(u32_be(r) =~= b@.subrange(pos as int, pos + 4));
    }
    r
}

fn read_bytes(b: &Vec<u8>, pos: usize, n: usize) -> (r: Vec<u8>)
    requires
        pos + n <= b@.len(),
    ensures
        r@ == b@.subrange(pos as int, pos + n),
{
    // The length of a vector fits in usize, so the indices below do too.
    let len = b.len();
    let mut r: Vec<u8> = Vec::new();
    let mut i: usize = 0;
    while i < n
        invariant
            len == b@.len(),
            pos + n <= b@.len(),
            i <= n,
            r@ == b@.subrange(pos as int, pos + i),
        decreases n - i,
    {
        r.push(b[pos + i]);
        i = i + 1;
        assert(r@ =~= b@.subrange(pos as int, pos + i));
    }
    r
}

impl Event {
    /// The bytes that the event's signatures sign.
    pub fn signing_message(&self) -> (r: Vec<u8>)
        ensures
            r@ == message_of(self@),
    {
        let mut out: Vec<u8> = Vec::new();
        let tag: u8 = match self.action {
            EventAction::Repudiation { .. } => 2,
            EventAction::Declaration { .. } => 3,
        };
        out.push(0u8);
        out.push(tag);
        assert(out@ =~= tag_of(self@.action));
        push_u32(&mut out, self.number);
        push_u32(&mut out, (self.time >> 32u64) as u32);
        push_u32(&mut out, self.time as u32);
        push_bytes(&mut out, &self.author);
        match &self.action {
            EventAction::Repudiation { event } => push_u32(&mut out, *event),
            EventAction::Declaration { with } => push_bytes(&mut out, with),
        }
        assert(out@ =~= message_of(self@));
        out
    }

    /// Whether the signatures that the event's action asks for verify.
    pub fn verify(&self) -> (r: bool)
        ensures
            r == proofs_verify(self@),
    {
        if !self.well_sized() || self.proof.len() < 1 {
            return false;
        }
        let message = self.signing_message();
        assert(self@.proof[0] == self.proof@[0]@);
        if !verify_with(&self.author, &message, &self.proof[0]) {
            return false;
        }
        if self.proof.len() < 2 {
            return true;
        }
        match &self.action {
            EventAction::Declaration { with } => {
                assert(self@.proof[1] == self.proof@[1]@);
                verify_with(with, &message, &self.proof[1])
            },
            _ => false,
        }
    }

    /// Whether the identities and signatures have the right sizes.
    pub fn well_sized(&self) -> (r: bool)
        ensures
            r == self@.wf(),
    {
        if self.author.len() != PUBLIC_ID_SIZE {
            return false;
        }
        if let EventAction::Declaration { with } = &self.action {
            if with.len() != PUBLIC_ID_SIZE {
                return false;
            }
        }
        let mut i: usize = 0;
        while i < self.proof.len()
            invariant
                i <= self.proof@.len(),
                forall|j: int| 0 <= j < i ==> (#[trigger] self.proof@[j])@.len() == SIGNATURE_SIZE,
            decreases self.proof@.len() - i,
        {
            if self.proof[i].len() != SIGNATURE_SIZE {
                assert(self@.proof[i as int] == self.proof@[i as int]@);
                return false;
            }
            i = i + 1;
        }
        true
    }

    /// The event's frame: its message, the number of its signatures, then
    /// the signatures.
    pub fn encode(&self) -> (r: Vec<u8>)
        requires
            self.proof@.len() < 256,
        ensures
            r@ == frame_of(self@),
    {
        let mut out = self.signing_message();
        out.push(self.proof.len() as u8);
        let mut i: usize = 0;
        while i < self.proof.len()
            invariant
                i <= self.proof@.len(),
                self.proof@.len() < 256,
                out@ == message_of(self@) + seq![self@.proof.len() as u8] + flatten(self@.proof.take(i as int)),
            decreases self.proof@.len() - i,
        {
            push_bytes(&mut out, &self.proof[i]);
            proof {
                let p = self@.proof;
                assert(p.take(i + 1).drop_last() =~= p.take(i as int));
                assert(p[i as int] == self.proof@[i as int]@);
            }
            i = i + 1;
        }
        assert(self@.proof.take(i as int) =~= self@.proof);
        out
    }
}

/// Decodes the frame that begins at `pos`, with the number of its bytes;
/// `None` if no whole frame of a complete event begins there.
pub fn decode_frame(bytes: &Vec<u8>, pos: usize) -> (r: Option<(Event, usize)>)
    requires
        pos <= bytes@.len(),
    ensures
        r matches Some((e, n)) ==> (pos + n <= bytes@.len() && e@.wf() && e@.is_complete()
            && bytes@.subrange(pos as int, pos + n) == frame_of(e@)),
        forall|m: EventModel|
            #![trigger frame_of(m)]
            m.wf() && m.is_complete() && pos + frame_of(m).len() <= bytes@.len()
                && bytes@.subrange(pos as int, pos + frame_of(m).len()) == frame_of(m) ==> (r matches Some(
                (e, n)) && e@ == m && n == frame_of(m).len()),
{
    let r = decode_frame_at(bytes, pos);
    proof {
        assert forall|m: EventModel|
            #![trigger frame_of(m)]
            m.wf() && m.is_complete() && pos + frame_of(m).len() <= bytes@.len()
                && bytes@.subrange(pos as int, pos + frame_of(m).len()) == frame_of(m) implies (r matches Some(
                (e, n)) && e@ == m && n == frame_of(m).len()) by {
            lemma_frame_layout(m);
            let s = bytes@.subrange(pos as int, bytes@.len() as int);
            assert(s.subrange(0, frame_of(m).len() as int) =~= frame_of(m));
            if let Some((e, n)) = r {
                assert(s.subrange(0, n as int) =~= frame_of(e@));
                lemma_frame_unique(m, e@, s);
            } else {
                let f = frame_of(m);
                let pl = payload_of(m.action).len() as int;
                assert(f.subrange(0, 2) == tag_of(m.action));
                assert(f[0] == f.subrange(0, 2)[0]);
                assert(f[1] == f.subrange(0, 2)[1]);
                assert(bytes@[pos as int] == f[0]);
                assert(bytes@[pos + 1] == f[1]);
                assert(bytes@[pos + 78 + pl] == f[78 + pl]);
            }
        }
    }
    r
}

#[verifier::rlimit(60)]
fn decode_frame_at(bytes: &Vec<u8>, pos: usize) -> (r: Option<(Event, usize)>)
    requires
        pos <= bytes@.len(),
    ensures
        r matches Some((e, n)) ==> (pos + n <= bytes@.len() && e@.wf() && e@.is_complete()
            && bytes@.subrange(pos as int, pos + n) == frame_of(e@)),
        r is None ==> ({
            let b = bytes@;
            let p = pos as int;
            let pl: int = if b[p + 1] == 2 { 4 } else { 64 };
            ||| b.len() - p < 2
            ||| b[p] != 0
            ||| !(2 <= b[p + 1] <= 3)
            ||| b.len() - p < 78 + pl + 1
            ||| !(b[p + 78 + pl] == 1 || (b[p + 1] == 3 && b[p + 78 + pl] == 2))
            ||| b.len() - p < 78 + pl + 1 + 64 * b[p + 78 + pl]
        }),
{
    let len = bytes.len();
    if len - pos < 2 {
        return None;
    }
    let kind = bytes[pos + 1];
    if bytes[pos] != 0 || kind < 2 || kind > 3 {
        return None;
    }
    let payload: usize = if kind == 2 { 4 } else { PUBLIC_ID_SIZE };
    if len - pos < HEADER_SIZE + payload + 1 {
        return None;
    }
    let count = bytes[pos + HEADER_SIZE + payload];
    if !(count == 1 || (kind == 3 && count == 2)) {
        return None;
    }
    let size = HEADER_SIZE + payload + 1 + (count as usize) * SIGNATURE_SIZE;
    if len - pos < size {
        return None;
    }
    let number = read_u32(bytes, pos + 2);
    let hi = read_u32(bytes, pos + 6);
    let lo = read_u32(bytes, pos + 10);
    let time: u64 = ((hi as u64) << 32u64) | (lo as u64);
    let author = read_bytes(bytes, pos + 14, PUBLIC_ID_SIZE);
    let action = if kind == 2 {
        EventAction::Repudiation { event: read_u32(bytes, pos + HEADER_SIZE) }
    } else {
        EventAction::Declaration { with: read_bytes(bytes, pos + HEADER_SIZE, PUBLIC_ID_SIZE) }
    };
    let start = pos + HEADER_SIZE + payload + 1;
    let mut proof: Vec<Vec<u8>> = Vec::new();
    let first = read_bytes(bytes, start, SIGNATURE_SIZE);
    proof.push(first);
    if count == 2 {
        let second = read_bytes(bytes, start + SIGNATURE_SIZE, SIGNATURE_SIZE);
        proof.push(second);
    }
    let e = Event { number, time, author, action, proof };
    proof {
        lemma_u64_round_trip(0, hi, lo);
        let m = e@;
        let b = bytes@;
        let p = pos as int;
        assert(e.proof@[0]@ == m.proof[0]);
        assert(u64_be(time) =~= b.subrange(p + 6, p + 14));
        assert(tag_of(m.action) =~= b.subrange(p, p + 2));
        assert(payload_of(m.action) =~= b.subrange(p + 78, p + 78 + payload));
        if count == 2 {
            assert(e.proof@[1]@ == m.proof[1]);
        }
        assert(m.proof.len() == count);
        assert(frame_size(m) == size);
        lemma_frame_matches(b, p, m);
    }
    Some((e, size))
}

pub proof fn lemma_stream_push(evs: Seq<EventModel>, e: EventModel)
    ensures
        stream_of(evs.push(e)) == stream_of(evs) + frame_of(e),
    decreases evs.len(),
{
    let w = evs.push(e);
    if evs.len() == 0 {
        assert(w.drop_first() =~= Seq::<EventModel>::empty());
        assert(w[0] == e);
        assert(stream_of(w.drop_first()) == Seq::<u8>::empty());
        assert(stream_of(w) =~= frame_of(e));
    } else {
        assert(w.drop_first() =~= evs.drop_first().push(e));
        lemma_stream_push(evs.drop_first(), e);
        assert(stream_of(w) =~= stream_of(evs) + frame_of(e));
    }
}

proof fn lemma_stream_split(evs: Seq<EventModel>, k: int)
    requires
        0 <= k <= evs.len(),
    ensures
        stream_of(evs) == stream_of(evs.take(k)) + stream_of(evs.skip(k)),
    decreases k,
{
    if k == 0 {
        assert(evs.take(0) =~= Seq::<EventModel>::empty());
        assert(evs.skip(0) =~= evs);
        assert(stream_of(evs) =~= stream_of(evs.take(k)) + stream_of(evs.skip(k)));
    } else {
        lemma_stream_split(evs, k - 1);
        assert(evs.take(k) =~= evs.take(k - 1).push(evs[k - 1]));
        lemma_stream_push(evs.take(k - 1), evs[k - 1]);
        let rest = evs.skip(k - 1);
        assert(rest[0] == evs[k - 1]);
        assert(rest.drop_first() =~= evs.skip(k));
        assert(stream_of(evs) =~= stream_of(evs.take(k)) + stream_of(evs.skip(k)));
    }
}

/// Where the first `k` events' frames end before the end of a stream, the
/// next frame is that of event `k`.
proof fn lemma_next_frame(evs: Seq<EventModel>, k: int, b: Seq<u8>, pos: int)
    requires
        0 <= k <= evs.len(),
        stream_of(evs) == b,
        stream_of(evs.take(k)) == b.subrange(0, pos),
        0 <= pos < b.len(),
    ensures
        k < evs.len(),
        pos + frame_of(evs[k]).len() <= b.len(),
        b.subrange(pos, pos + frame_of(evs[k]).len()) == frame_of(evs[k]),
{
    lemma_stream_split(evs, k);
    if k == evs.len() {
        assert(evs.skip(k) =~= Seq::<EventModel>::empty());
        assert(b.len() == pos);
    }
    let rest = evs.skip(k);
    assert(rest[0] == evs[k]);
    let f = frame_of(evs[k]);
    assert(stream_of(rest) == f + stream_of(rest.drop_first()));
    assert(b.subrange(pos, pos + f.len()) =~= f) by {
        assert forall|i: int| 0 <= i < f.len() implies b.subrange(pos, pos + f.len())[i] == f[i] by {
            assert(b[pos + i] == (stream_of(evs.take(k)) + stream_of(rest))[pos + i]);
        }
    }
}

/// Decodes a whole stream of frames. `None` when the stream is not made of
/// frames of complete events, end to end.
#[verifier::rlimit(80)]
pub fn decode_stream(bytes: &Vec<u8>) -> (r: Option<Vec<Event>>)
    ensures
        r matches Some(v) ==> (all_complete(events_view(v@)) && stream_of(events_view(v@)) == bytes@),
        forall|evs: Seq<EventModel>|
            #![trigger stream_of(evs)]
            all_complete(evs) && stream_of(evs) == bytes@ ==> (r matches Some(v) && events_view(v@) == evs),
{
    let mut out: Vec<Event> = Vec::new();
    let mut pos: usize = 0;
    let len = bytes.len();
    proof {
        assert(events_view(out@) =~= Seq::<EventModel>::empty());
        assert(bytes@.subrange(0, 0) =~= Seq::<u8>::empty());
    }
    while pos < len
        invariant
            len == bytes@.len(),
            pos <= len,
            all_complete(events_view(out@)),
            stream_of(events_view(out@)) == bytes@.subrange(0, pos as int),
            forall|evs: Seq<EventModel>|
                #![trigger stream_of(evs)]
                all_complete(evs) && stream_of(evs) == bytes@ ==> (events_view(out@).len() <= evs.len()
                    && evs.take(events_view(out@).len() as int) == events_view(out@)),
        decreases len - pos,
    {
        let ghost k = events_view(out@).len() as int;
        match decode_frame(bytes, pos) {
            None => {
                proof {
                    assert forall|evs: Seq<EventModel>|
                        #![trigger stream_of(evs)]
                        all_complete(evs) && stream_of(evs) == bytes@ implies false by {
                        lemma_next_frame(evs, k, bytes@, pos as int);
                        assert(evs[k].wf() && evs[k].is_complete());
                    }
                }
                return None;
            },
            Some((e, n)) => {
                let ghost prev = events_view(out@);
                proof {
                    lemma_frame_layout(e@);
                    lemma_stream_push(prev, e@);
                    assert(bytes@.subrange(0, pos + n) =~= bytes@.subrange(0, pos as int) + bytes@.subrange(
                        pos as int,
                        pos + n,
                    ));
                    assert forall|evs: Seq<EventModel>|
                        #![trigger stream_of(evs)]
                        all_complete(evs) && stream_of(evs) == bytes@ implies (k + 1 <= evs.len() && evs.take(
                            k + 1,
                        ) == prev.push(e@)) by {
                        lemma_next_frame(evs, k, bytes@, pos as int);
                        assert(evs[k].wf() && evs[k].is_complete());
                        assert(evs.take(k + 1) =~= evs.take(k).push(evs[k]));
                    }
                }
                out.push(e);
                pos = pos + n;
                proof {
                    assert(events_view(out@) =~= prev.push(e@));
                }
            },
        }
    }
    proof {
        assert(bytes@.subrange(0, len as int) =~= bytes@);
        assert forall|evs: Seq<EventModel>|
            #![trigger stream_of(evs)]
            all_complete(evs) && stream_of(evs) == bytes@ implies events_view(out@) == evs by {
            let k = events_view(out@).len() as int;
            lemma_stream_split(evs, k);
            if k < evs.len() {
                let rest = evs.skip(k);
                assert(rest[0] == evs[k]);
                lemma_frame_layout(evs[k]);
                assert(stream_of(rest) == frame_of(rest[0]) + stream_of(rest.drop_first()));
            }
            assert(evs.take(k) =~= evs);
        }
    }
    Some(out)
}

} // verus!
