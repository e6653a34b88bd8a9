use vstd::prelude::*;
use crate::codec::{all_complete, decode_stream, lemma_stream_push, message_of, proofs_verify, stream_of};
use crate::crypto::signature_by;
use crate::identity::Identity;
use crate::event::{
    events_view, ActionModel, Event, EventAction, EventModel,
};

verus! {

/// Why an event was refused by a chain.
#[derive(Debug, Clone, Copy, PartialEq, Eq)]
pub enum PassportError {
    /// An identity or a signature has the wrong size.
    Malformed,
    /// The event's number is not the next position of the chain.
    OutOfOrder,
    /// The first event is not a declaration of its own author.
    InvalidGenesis,
    /// The author is not an active identity of the chain.
    UnAuthorized,
    /// A signature slot is missing or a signature does not verify.
    InvalidSignature,
    /// The repudiated event is itself a repudiation.
    CannotRepudiateRepudiate,
    /// The repudiated event is not in the chain.
    CannotRepudiateUnknownEventId { event_id: u32 },
    /// The identity of the repudiated event is no longer active.
    CannotRepudiateInactive { event_id: u32 },
}

/// The identity that an event makes active.
pub open spec fn declared_by(e: EventModel) -> Seq<u8> {
    match e.action {
        ActionModel::Declaration { with } => with,
        _ => e.author,
    }
}

/// The identities active after a chain, replaying it from its first event.
pub open spec fn active_ids(evs: Seq<EventModel>) -> Set<Seq<u8>>
    decreases evs.len(),
{
    if evs.len() == 0 {
        Set::empty()
    } else {
        let before = active_ids(evs.drop_last());
        let e = evs.last();
        match e.action {
            ActionModel::Declaration { with } => before.insert(with),
            ActionModel::Repudiation { event } => {
                if 1 <= event < evs.len() {
                    before.remove(declared_by(evs[event - 1]))
                } else {
                    before
                }
            },
        }
    }
}

/// A declaration whose declared identity is its own author, as a
/// passport's genesis is.
pub open spec fn is_self_declaration(e: EventModel) -> bool {
    e.action matches ActionModel::Declaration { with } && with == e.author
}

/// Why a chain refuses the event `e`, if it does; `proof_valid` is the
/// verdict of the signature check on `e`.
pub open spec fn rejection(evs: Seq<EventModel>, e: EventModel, proof_valid: bool) -> Option<
    PassportError,
> {
    if !e.wf() {
        Some(PassportError::Malformed)
    } else if e.number != evs.len() + 1 {
        Some(PassportError::OutOfOrder)
    } else if evs.len() == 0 && !is_self_declaration(e) {
        Some(PassportError::InvalidGenesis)
    } else if evs.len() > 0 && !active_ids(evs).contains(e.author) {
        Some(PassportError::UnAuthorized)
    } else if !e.is_complete() || !proof_valid {
        Some(PassportError::InvalidSignature)
    } else {
        match e.action {
            ActionModel::Repudiation { event } => {
                if !(1 <= event <= evs.len()) {
                    Some(PassportError::CannotRepudiateUnknownEventId { event_id: event })
                } else if evs[event - 1].action is Repudiation {
                    Some(PassportError::CannotRepudiateRepudiate)
                } else if !active_ids(evs).contains(declared_by(evs[event - 1])) {
                    Some(PassportError::CannotRepudiateInactive { event_id: event })
                } else {
                    None
                }
            },
            _ => None,
        }
    }
}

/// Every event is accepted by the chain before it, its signatures verifying.
pub open spec fn is_chain(evs: Seq<EventModel>) -> bool {
    &&& evs.len() > 0
    &&& forall|i: int| 0 <= i < evs.len() ==> rejection(evs.take(i), #[trigger] evs[i], proofs_verify(evs[i])) is None
}

/// The verdict of the signature check on each event.
pub open spec fn verdicts_of(evs: Seq<EventModel>) -> Seq<bool> {
    Seq::new(evs.len(), |i: int| proofs_verify(evs[i]))
}

/// The identities held in a list.
pub open spec fn ids_of(v: Seq<Vec<u8>>) -> Set<Seq<u8>> {
    Set::new(|x: Seq<u8>| exists|i: int| 0 <= i < v.len() && (#[trigger] v[i])@ == x)
}

/// The first `n` events are each accepted by the chain before them, with
/// the given signature verdicts.
pub open spec fn accepted(evs: Seq<EventModel>, verdicts: Seq<bool>, n: int) -> bool {
    forall|j: int| 0 <= j < n ==> rejection(evs.take(j), #[trigger] evs[j], verdicts[j]) is None
}

/// The genesis event of a passport founded by the identity of `seed`,
/// whose public identity is `author`: a declaration of `author` by itself,
/// with the founder's signature in both slots.
pub open spec fn genesis_model(author: Seq<u8>, time: u64, seed: Seq<u8>) -> EventModel {
    let unsigned = EventModel {
        number: 1,
        time,
        author,
        action: ActionModel::Declaration { with: author },
        proof: Seq::empty(),
    };
    let signature = signature_by(seed, message_of(unsigned));
    EventModel { proof: seq![signature, signature], ..unsigned }
}

/// The event that comes next after `evs`, signed in slot 0 by the identity of `seed`.
pub open spec fn next_signed(evs: Seq<EventModel>, author: Seq<u8>, seed: Seq<u8>, action: ActionModel, time: u64) -> EventModel {
    let unsigned = next_model(evs, author, action, time);
    EventModel { proof: seq![signature_by(seed, message_of(unsigned))], ..unsigned }
}

/// The unsigned event that comes next after `evs`.
pub open spec fn next_model(evs: Seq<EventModel>, author: Seq<u8>, action: ActionModel, time: u64) -> EventModel {
    EventModel { number: (evs.len() + 1) as u32, time, author, action, proof: Seq::empty() }
}

/// Why a passport could not be rebuilt from a stream of events.
#[derive(Debug, Clone, Copy, PartialEq, Eq)]
pub enum ImportError {
    /// The stream holds no event, hence no genesis.
    Empty,
    /// A frame of the stream could not be decoded.
    Malformed,
    /// The event at `index` was refused by the chain.
    Chain { index: usize, error: PassportError },
}

/// Bytes equal as sequences.
fn same_bytes(a: &Vec<u8>, b: &Vec<u8>) -> (r: bool)
    ensures
        r == (a@ == b@),
{
    if a.len() != b.len() {
        return false;
    }
    let mut i: usize = 0;
    while i < a.len()
        invariant
            a@.len() == b@.len(),
            i <= a@.len(),
            forall|j: int| 0 <= j < i ==> a@[j] == b@[j],
        decreases a@.len() - i,
    {
        if a[i] != b[i] {
            return false;
        }
        i = i + 1;
    }
    assert(a@ =~= b@);
    true
}

fn contains_id(v: &Vec<Vec<u8>>, x: &Vec<u8>) -> (r: bool)
    ensures
        r == ids_of(v@).contains(x@),
{
    let mut i: usize = 0;
    while i < v.len()
        invariant
            i <= v@.len(),
            forall|j: int| 0 <= j < i ==> (#[trigger] v@[j])@ != x@,
        decreases v@.len() - i,
    {
        if same_bytes(&v[i], x) {
            assert(ids_of(v@).contains(x@));
            return true;
        }
        i = i + 1;
    }
    false
}

fn without_id(v: &Vec<Vec<u8>>, x: &Vec<u8>) -> (r: Vec<Vec<u8>>)
    ensures
        ids_of(r@) == ids_of(v@).remove(x@),
{
    let mut r: Vec<Vec<u8>> = Vec::new();
    let mut i: usize = 0;
    while i < v.len()
        invariant
            i <= v@.len(),
            forall|y: Seq<u8>|
                ids_of(r@).contains(y) <==> (y != x@ && exists|j: int|
                    0 <= j < i && (#[trigger] v@[j])@ == y),
        decreases v@.len() - i,
    {
        if !same_bytes(&v[i], x) {
            let ghost prev = r@;
            let c = v[i].clone();
            r.push(c);
            assert forall|y: Seq<u8>|
                ids_of(r@).contains(y) <==> (y != x@ && exists|j: int|
                    0 <= j < i + 1 && (#[trigger] v@[j])@ == y) by {
                if ids_of(r@).contains(y) {
                    let k = choose|k: int| 0 <= k < r@.len() && (#[trigger] r@[k])@ == y;
                    if k < prev.len() {
                        assert(r@[k] == prev[k]);
                        assert(ids_of(prev).contains(y));
                    }
                }
                if y != x@ && exists|j: int| 0 <= j < i + 1 && (#[trigger] v@[j])@ == y {
                    let j = choose|j: int| 0 <= j < i + 1 && (#[trigger] v@[j])@ == y;
                    if j < i {
                        assert(ids_of(prev).contains(y));
                        let k = choose|k: int| 0 <= k < prev.len() && (#[trigger] prev[k])@ == y;
                        assert(r@[k] == prev[k]);
                    } else {
                        assert(r@[prev.len() as int] == c);
                    }
                }
            }
        } else {
            assert forall|y: Seq<u8>|
                ids_of(r@).contains(y) <==> (y != x@ && exists|j: int|
                    0 <= j < i + 1 && (#[trigger] v@[j])@ == y) by {
                if y != x@ && exists|j: int| 0 <= j < i + 1 && (#[trigger] v@[j])@ == y {
                    let j = choose|j: int| 0 <= j < i + 1 && (#[trigger] v@[j])@ == y;
                    assert(j < i);
                }
            }
        }
        i = i + 1;
    }
    assert(ids_of(r@) =~= ids_of(v@).remove(x@));
    r
}

proof fn lemma_ids_push(v: Seq<Vec<u8>>, c: Vec<u8>)
    ensures
        ids_of(v.push(c)) == ids_of(v).insert(c@),
{
    let w = v.push(c);
    assert forall|y: Seq<u8>| ids_of(w).contains(y) <==> ids_of(v).insert(c@).contains(y) by {
        if ids_of(w).contains(y) {
            let k = choose|k: int| 0 <= k < w.len() && (#[trigger] w[k])@ == y;
            if k < v.len() {
                assert(w[k] == v[k]);
            }
        }
        if ids_of(v).contains(y) {
            let k = choose|k: int| 0 <= k < v.len() && (#[trigger] v[k])@ == y;
            assert(w[k] == v[k]);
        }
        if y == c@ {
            assert(w[v.len() as int] == c);
        }
    }
    assert(ids_of(w) =~= ids_of(v).insert(c@));
}

/// An append-only chain of signed events, with the identities that it
/// currently authorizes.
pub struct Passport {
    events: Vec<Event>,
    active: Vec<Vec<u8>>,
}

impl Passport {
    pub closed spec fn view(&self) -> Seq<EventModel> {
        events_view(self.events@)
    }

    /// The identities that the passport currently authorizes.
    pub closed spec fn active_set(&self) -> Set<Seq<u8>> {
        ids_of(self.active@)
    }

    /// The events form a chain, and the active identities are those that
    /// replaying it gives.
    pub open spec fn wf(&self) -> bool {
        &&& is_chain(self@)
        &&& self.active_set() == active_ids(self@)
    }

    fn empty() -> (r: Passport)
        ensures
            r.events@.len() == 0,
            r.active@.len() == 0,
            r@ == Seq::<EventModel>::empty(),
    {
        let r = Passport { events: Vec::new(), active: Vec::new() };
        assert(r@ =~= Seq::<EventModel>::empty());
        r
    }

    /// A passport founded by `identity`: its genesis event, prepared at
    /// `time`, declares the identity's own public id and carries its
    /// signature in both slots.
    pub fn new(identity: &Identity, time: u64) -> (r: Passport)
        requires
            identity.wf(),
        ensures
            r.wf(),
            r@ == seq![genesis_model(identity.public_view(), time, identity.seed_view())],
            r.active_set() == set![identity.public_view()],
    {
        let mut p = Passport::empty();
        let mut event = Event::unsigned(
            1,
            time,
            identity.public_id(),
            EventAction::Declaration { with: identity.public_id() },
        );
        event.force_self_sign(identity);
        event.force_signature(identity, 1);
        let ghost a = identity.public_view();
        let ghost g = genesis_model(a, time, identity.seed_view());
        proof {
            assert(event@.proof =~= g.proof);
            assert(event@ == g);
            assert(proofs_verify(g));
        }
        p.commit(event);
        proof {
            assert(p@ =~= seq![g]);
            let evs = p@;
            assert(evs.drop_last() =~= Seq::<EventModel>::empty());
            assert(active_ids(evs.drop_last()) == Set::<Seq<u8>>::empty());
            assert(active_ids(evs) =~= set![a]);
        }
        p
    }

    /// A passport whose first event is `event`, if it is a self-declaration, signed
    /// by its author, that the chain accepts.
    pub fn new_with(event: Event) -> (r: Result<Passport, PassportError>)
        ensures
            match rejection(Seq::empty(), event@, proofs_verify(event@)) {
                None => r matches Ok(p) && p.wf() && p@ == seq![event@],
                Some(err) => r == Err::<Passport, PassportError>(err),
            },
    {
        let mut p = Passport::empty();
        let proof_valid = event.verify();
        match p.check_event(&event, proof_valid) {
            Err(err) => Err(err),
            Ok(()) => {
                let ghost e = event@;
                p.commit(event);
                assert(p@ =~= seq![e]);
                Ok(p)
            },
        }
    }

    /// The events of the chain, in order, repudiated ones included.
    pub fn events(&self) -> (r: Vec<Event>)
        ensures
            events_view(r@) == self@,
    {
        let mut r: Vec<Event> = Vec::new();
        let mut i: usize = 0;
        while i < self.events.len()
            invariant
                i <= self.events@.len(),
                events_view(r@) =~= self@.take(i as int),
            decreases self.events@.len() - i,
        {
            let ghost prev = r@;
            let e = self.events[i].duplicate();
            r.push(e);
            assert(events_view(r@) =~= events_view(prev).push(e@));
            i = i + 1;
        }
        assert(self@.take(i as int) =~= self@);
        r
    }

    /// Number of events in the chain.
    pub fn len(&self) -> (r: usize)
        ensures
            r == self@.len(),
    {
        self.events.len()
    }

    /// Whether `id` is currently authorized to sign for the passport.
    pub fn check_identity(&self, id: &Vec<u8>) -> (r: bool)
        requires
            self.wf(),
        ensures
            r == active_ids(self@).contains(id@),
    {
        contains_id(&self.active, id)
    }

    /// The identities currently authorized to sign for the passport.
    pub fn active_identities(&self) -> (r: Vec<Vec<u8>>)
        requires
            self.wf(),
        ensures
            ids_of(r@) == active_ids(self@),
    {
        let r = self.active.clone();
        assert(ids_of(r@) =~= ids_of(self.active@)) by {
            assert forall|k: int| 0 <= k < r@.len() implies (#[trigger] r@[k])@ == self.active@[k]@ by {}
        }
        r
    }

    /// An unsigned event with `action`, authored by `author`, at the next
    /// position of the chain. Signing it and loading it is up to the caller.
    pub fn prepare_next_event(&self, author: Vec<u8>, action: EventAction, time: u64) -> (r: Event)
        requires
            self@.len() < u32::MAX,
        ensures
            r@ == next_model(self@, author@, action@, time),
    {
        Event::unsigned((self.events.len() + 1) as u32, time, author, action)
    }

    /// A declaration of `with`, authored and signed in slot 0 by
    /// `identity`. The declared identity still has to sign slot 1.
    pub fn next_event_declare(&self, identity: &Identity, with: Vec<u8>, time: u64) -> (r: Event)
        requires
            identity.wf(),
            self@.len() < u32::MAX,
        ensures
            r@ == next_signed(self@, identity.public_view(), identity.seed_view(), ActionModel::Declaration { with: with@ }, time),
            with@.len() == crate::event::PUBLIC_ID_SIZE ==> proofs_verify(r@),
    {
        let mut e = self.prepare_next_event(identity.public_id(), EventAction::Declaration { with }, time);
        e.force_self_sign(identity);
        assert(e@.proof =~= seq![signature_by(identity.seed_view(), message_of(e@))]);
        e
    }

    /// A repudiation of the event at position `event`, authored and signed
    /// by `identity`.
    pub fn next_event_repudiate(&self, identity: &Identity, event: u32, time: u64) -> (r: Event)
        requires
            identity.wf(),
            self@.len() < u32::MAX,
        ensures
            r@ == next_signed(self@, identity.public_view(), identity.seed_view(), ActionModel::Repudiation { event }, time),
            proofs_verify(r@),
    {
        let mut e = self.prepare_next_event(identity.public_id(), EventAction::Repudiation { event }, time);
        e.force_self_sign(identity);
        assert(e@.proof =~= seq![signature_by(identity.seed_view(), message_of(e@))]);
        e
    }

    /// Rebuilds a passport by loading `events` in order, the first through
    /// `new_with`, each with its signatures checked.
    #[verifier::rlimit(60)]
    pub fn import_events(events: &Vec<Event>) -> (r: Result<Passport, ImportError>)
        ensures
            ({
                let evs = events_view(events@);
                let vs = verdicts_of(evs);
                &&& (r == Err::<Passport, ImportError>(ImportError::Empty)) <==> evs.len() == 0
                &&& r is Ok <==> evs.len() > 0 && accepted(evs, vs, evs.len() as int)
                &&& (r matches Ok(p) ==> p.wf() && p@ == evs)
                &&& (r matches Err(ImportError::Chain { index, error }) ==> index < evs.len()
                    && accepted(evs, vs, index as int)
                    && rejection(evs.take(index as int), evs[index as int], vs[index as int]) == Some(error))
                &&& !(r matches Err(ImportError::Malformed))
            }),
    {
        let ghost evs = events_view(events@);
        let ghost vs = verdicts_of(evs);
        if events.len() == 0 {
            return Err(ImportError::Empty);
        }
        let mut p = match Passport::new_with(events[0].duplicate()) {
            Err(error) => {
                proof {
                    assert(evs.take(0) =~= Seq::<EventModel>::empty());
                    assert(rejection(evs.take(0), evs[0], vs[0]) is Some);
                }
                return Err(ImportError::Chain { index: 0, error });
            },
            Ok(p) => p,
        };
        proof {
            assert(evs.take(0) =~= Seq::<EventModel>::empty());
            assert(p@ =~= evs.take(1));
        }
        let mut i: usize = 1;
        while i < events.len()
            invariant
                1 <= i <= events@.len(),
                evs == events_view(events@),
                vs == verdicts_of(evs),
                p.wf(),
                p@ == evs.take(i as int),
                accepted(evs, vs, i as int),
            decreases events@.len() - i,
        {
            let ghost before = p@;
            match p.load_event(events[i].duplicate()) {
                Err(error) => {
                    proof {
                        assert(rejection(evs.take(i as int), evs[i as int], vs[i as int]) is Some);
                    }
                    return Err(ImportError::Chain { index: i, error });
                },
                Ok(()) => {},
            }
            proof {
                assert(evs.take(i + 1) =~= before.push(evs[i as int]));
                assert forall|j: int| 0 <= j < i + 1 implies rejection(
                    evs.take(j),
                    #[trigger] evs[j],
                    vs[j],
                ) is None by {
                    if j == i {
                        assert(evs.take(j) == before);
                    }
                }
            }
            i = i + 1;
        }
        assert(evs.take(i as int) =~= evs);
        Ok(p)
    }

    /// The frames of every event, in chain order.
    pub fn export(&self) -> (r: Vec<u8>)
        requires
            self.wf(),
        ensures
            r@ == stream_of(self@),
    {
        let mut out: Vec<u8> = Vec::new();
        let mut i: usize = 0;
        proof {
            assert(self@.take(0) =~= Seq::<EventModel>::empty());
        }
        while i < self.events.len()
            invariant
                self.wf(),
                i <= self.events@.len(),
                out@ == stream_of(self@.take(i as int)),
            decreases self.events@.len() - i,
        {
            proof {
                let evs = self@;
                assert(rejection(evs.take(i as int), evs[i as int], proofs_verify(evs[i as int])) is None);
                assert(self.events@[i as int]@ == evs[i as int]);
            }
            let frame = self.events[i].encode();
            proof {
                assert(self@.take(i + 1) =~= self@.take(i as int).push(self@[i as int]));
                lemma_stream_push(self@.take(i as int), self@[i as int]);
            }
            let mut k: usize = 0;
            let ghost start = out@;
            while k < frame.len()
                invariant
                    k <= frame@.len(),
                    out@ == start + frame@.take(k as int),
                decreases frame@.len() - k,
            {
                out.push(frame[k]);
                k = k + 1;
                assert(out@ =~= start + frame@.take(k as int));
            }
            assert(frame@.take(k as int) =~= frame@);
            i = i + 1;
        }
        assert(self@.take(i as int) =~= self@);
        out
    }

    /// Rebuilds a passport from a stream of frames, checking each event's
    /// signatures and its place in the chain.
    pub fn import(bytes: &Vec<u8>) -> (r: Result<Passport, ImportError>)
        ensures
            (r == Err::<Passport, ImportError>(ImportError::Malformed)) <==> !exists|evs: Seq<EventModel>|
                all_complete(evs) && #[trigger] stream_of(evs) == bytes@,
            forall|evs: Seq<EventModel>|
                #![trigger stream_of(evs)]
                all_complete(evs) && stream_of(evs) == bytes@ ==> {
                    let vs = verdicts_of(evs);
                    &&& (r == Err::<Passport, ImportError>(ImportError::Empty)) <==> evs.len() == 0
                    &&& r is Ok <==> evs.len() > 0 && accepted(evs, vs, evs.len() as int)
                    &&& (r matches Ok(p) ==> p.wf() && p@ == evs)
                    &&& (r matches Err(ImportError::Chain { index, error }) ==> index < evs.len()
                        && accepted(evs, vs, index as int) && rejection(evs.take(index as int), evs[index as int], vs[index as int])
                        == Some(error))
                },
    {
        match decode_stream(bytes) {
            None => Err(ImportError::Malformed),
            Some(events) => Passport::import_events(&events),
        }
    }

    /// Checks `event` against the chain, its signatures included, and
    /// appends it. On refusal the passport is left as it was.
    pub fn load_event(&mut self, event: Event) -> (r: Result<(), PassportError>)
        requires
            old(self).wf(),
        ensures
            final(self).wf(),
            match rejection(old(self)@, event@, proofs_verify(event@)) {
                None => r is Ok && final(self)@ == old(self)@.push(event@),
                Some(err) => r == Err::<(), PassportError>(err) && final(self)@ == old(self)@,
            },
            load_step(old(self)@, final(self)@),
    {
        let proof_valid = event.verify();
        match self.check_event(&event, proof_valid) {
            Err(err) => Err(err),
            Ok(()) => {
                self.commit(event);
                Ok(())
            },
        }
    }

    /// Whether `event` may be appended, without changing anything.
    fn check_event(&self, event: &Event, proof_valid: bool) -> (r: Result<(), PassportError>)
        requires
            self.events@.len() > 0 ==> self.active_set() == active_ids(self@),
            self.events@.len() == 0 ==> self.active@.len() == 0,
        ensures
            r == match rejection(self@, event@, proof_valid) {
                None => Ok::<(), PassportError>(()),
                Some(err) => Err(err),
            },
    {
        if !event.well_sized() {
            return Err(PassportError::Malformed);
        }
        let len = self.events.len();
        if len >= u32::MAX as usize || event.number != (len + 1) as u32 {
            return Err(PassportError::OutOfOrder);
        }
        if len == 0 {
            let self_declared = match &event.action {
                EventAction::Declaration { with } => same_bytes(with, &event.author),
                _ => false,
            };
            if !self_declared {
                return Err(PassportError::InvalidGenesis);
            }
        }
        if len > 0 && !contains_id(&self.active, &event.author) {
            return Err(PassportError::UnAuthorized);
        }
        let is_declaration = match event.action {
            EventAction::Declaration { .. } => true,
            _ => false,
        };
        let slots = event.proof.len();
        let complete = slots == 1 || (is_declaration && slots == 2);
        if !complete || !proof_valid {
            return Err(PassportError::InvalidSignature);
        }
        match event.action {
            EventAction::Repudiation { event: target } => {
                if target < 1 || target as usize > len {
                    return Err(PassportError::CannotRepudiateUnknownEventId { event_id: target });
                }
                let t = &self.events[(target - 1) as usize];
                let declared = match &t.action {
                    EventAction::Repudiation { .. } => {
                        return Err(PassportError::CannotRepudiateRepudiate);
                    },
                    EventAction::Declaration { with } => with,
                };
                if !contains_id(&self.active, declared) {
                    return Err(PassportError::CannotRepudiateInactive { event_id: target });
                }
                Ok(())
            },
            _ => Ok(()),
        }
    }

    /// Appends an event that the chain accepts and updates the active identities.
    fn commit(&mut self, event: Event)
        requires
            rejection(old(self)@, event@, proofs_verify(event@)) is None,
            old(self).events@.len() > 0 ==> old(self).wf(),
            old(self).events@.len() == 0 ==> old(self).active@.len() == 0,
        ensures
            final(self).wf(),
            final(self)@ == old(self)@.push(event@),
    {
        let ghost before = self@;
        let ghost after = before.push(event@);
        proof {
            assert(after.drop_last() =~= before);
            if before.len() == 0 {
                assert(ids_of(self.active@) =~= Set::empty());
            }
        }
        let ghost old_active = self.active@;
        match &event.action {
            EventAction::Declaration { with } => {
                let c = with.clone();
                proof { lemma_ids_push(old_active, c); }
                self.active.push(c);
            },
            EventAction::Repudiation { event: target } => {
                let t = &self.events[(*target - 1) as usize];
                assert(t@ == before[*target - 1]);
                let declared = match &t.action {
                    EventAction::Declaration { with } => with,
                    _ => &t.author,
                };
                assert(declared@ == declared_by(before[*target - 1]));
                assert(after[*target - 1] == before[*target - 1]);
                self.active = without_id(&self.active, declared);
            },
        }
        proof {
            assert(ids_of(old_active) == active_ids(before));
            assert(after.last() == event@);
            assert(ids_of(self.active@) == active_ids(after));
        }
        self.events.push(event);
        proof {
            assert(self@ =~= after);
            assert forall|i: int| 0 <= i < after.len() implies rejection(
                after.take(i),
                #[trigger] after[i],
                proofs_verify(after[i]),
            ) is None by {
                if i < before.len() {
                    assert(after.take(i) =~= before.take(i));
                } else {
                    assert(after.take(i) =~= before);
                }
            }
            assert(self.active_set() =~= active_ids(after));
        }
    }
}

/// Loading the events of a passport again accepts every one of them:
/// rebuilding gives the same events, hence the same active identities.
pub proof fn lemma_reload_accepts_chain(evs: Seq<EventModel>)
    requires
        is_chain(evs),
    ensures
        accepted(evs, verdicts_of(evs), evs.len() as int),
{
}

/// The frames that a passport exports decode to its own events, each of
/// which is accepted again: importing what was exported gives back the same
/// events, hence the same active identities.
pub proof fn lemma_export_import(evs: Seq<EventModel>)
    requires
        is_chain(evs),
    ensures
        all_complete(evs),
        accepted(evs, verdicts_of(evs), evs.len() as int),
{
    assert forall|i: int| 0 <= i < evs.len() implies (#[trigger] evs[i]).wf() && evs[i].is_complete() by {
        assert(rejection(evs.take(i), evs[i], proofs_verify(evs[i])) is None);
    }
}

/// A chain starts with a self-declaration of its founder whose signatures
/// verify: any other first event is refused.
pub proof fn lemma_genesis_required(e: EventModel)
    requires
        !is_self_declaration(e) || !proofs_verify(e),
    ensures
        rejection(Seq::empty(), e, proofs_verify(e)) is Some,
{
}

/// What one `load_event` call can do to the events: keep them, when it is
/// refused, or append exactly one event, when it is accepted.
pub open spec fn load_step(before: Seq<EventModel>, after: Seq<EventModel>) -> bool {
    after == before || exists|e: EventModel| after == before.push(e)
}

/// Over any sequence of `load_event` calls, each state of the events is a
/// prefix of every later one: no event is ever altered or removed.
pub proof fn lemma_loads_keep_prefix(states: Seq<Seq<EventModel>>, j: int, k: int)
    requires
        forall|i: int| 0 <= i < states.len() - 1 ==> load_step(#[trigger] states[i], states[i + 1]),
        0 <= j <= k < states.len(),
    ensures
        states[j].len() <= states[k].len(),
        states[k].take(states[j].len() as int) == states[j],
    decreases k - j,
{
    if j == k {
        assert(states[k].take(states[j].len() as int) =~= states[j]);
    } else {
        lemma_loads_keep_prefix(states, j, k - 1);
        let prev = states[k - 1];
        assert(load_step(states[k - 1], states[k]));
        if states[k] != prev {
            let e = choose|e: EventModel| states[k] == prev.push(e);
            assert(states[k].take(states[j].len() as int) =~= prev.take(states[j].len() as int));
        }
    }
}

/// An accepted event extends the chain by itself alone: every earlier
/// event stays in place, unchanged.
pub proof fn lemma_append_keeps_prefix(before: Seq<EventModel>, e: EventModel, after: Seq<EventModel>)
    requires
        after == before.push(e),
    ensures
        after.len() == before.len() + 1,
        after.take(before.len() as int) == before,
        forall|i: int| 0 <= i < before.len() ==> after[i] == #[trigger] before[i],
{
    assert(after.take(before.len() as int) =~= before);
}

/// An event whose author is not active in a founded chain is refused,
/// whatever the verdict on its signatures.
pub proof fn lemma_unauthorized_refused(evs: Seq<EventModel>, e: EventModel, proof_valid: bool)
    requires
        evs.len() > 0,
        !active_ids(evs).contains(e.author),
    ensures
        rejection(evs, e, proof_valid) is Some,
{
}

/// Repudiating an event keeps it in the chain and only takes its identity
/// out of the active ones.
pub proof fn lemma_repudiation_keeps_event(evs: Seq<EventModel>, e: EventModel, proof_valid: bool)
    requires
        rejection(evs, e, proof_valid) is None,
        e.action is Repudiation,
    ensures
        ({
            let target = e.action->Repudiation_event;
            let after = evs.push(e);
            &&& 1 <= target <= evs.len()
            &&& after[target - 1] == evs[target - 1]
            &&& active_ids(after) == active_ids(evs).remove(declared_by(evs[target - 1]))
        }),
{
    let after = evs.push(e);
    assert(after.drop_last() =~= evs);
}

/// Two passports holding the same events have the same active identities.
pub proof fn lemma_same_events_same_active(a: &Passport, b: &Passport)
    requires
        a.wf(),
        b.wf(),
        a@ == b@,
    ensures
        a.active_set() == b.active_set(),
{
}

} // verus!
