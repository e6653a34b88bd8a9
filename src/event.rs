use vstd::prelude::*;

verus! {

/// Number of bytes of a public identity.
pub const PUBLIC_ID_SIZE: usize = 64;

/// Number of bytes of a signature.
pub const SIGNATURE_SIZE: usize = 64;

/// What an event does to the chain.
pub enum EventAction {
    /// Invalidates the event at the given position of the chain.
    Repudiation { event: u32 },
    /// Authorizes a new public identity.
    Declaration { with: Vec<u8> },
}

/// The mathematical value of an action.
pub enum ActionModel {
    Repudiation { event: u32 },
    Declaration { with: Seq<u8> },
}

/// One record of a passport's chain.
pub struct Event {
    /// Position of the event in its chain, starting at 1; it is the event's id.
    pub number: u32,
    /// When the event was prepared, in seconds.
    pub time: u64,
    /// The public identity that signs the event in slot 0.
    pub author: Vec<u8>,
    pub action: EventAction,
    /// Signatures, by slot.
    pub proof: Vec<Vec<u8>>,
}

/// The mathematical value of an event.
pub struct EventModel {
    pub number: u32,
    pub time: u64,
    pub author: Seq<u8>,
    pub action: ActionModel,
    pub proof: Seq<Seq<u8>>,
}

impl EventAction {
    pub open spec fn view(&self) -> ActionModel {
        match self {
            EventAction::Repudiation { event } => ActionModel::Repudiation { event: *event },
            EventAction::Declaration { with } => ActionModel::Declaration { with: with@ },
        }
    }

    pub fn duplicate(&self) -> (r: EventAction)
        ensures
            r@ == self@,
    {
        match self {
            EventAction::Repudiation { event } => EventAction::Repudiation { event: *event },
            EventAction::Declaration { with } => EventAction::Declaration { with: with.clone() },
        }
    }
}

impl EventModel {
    /// Sizes of the identities and signatures are right.
    pub open spec fn wf(self) -> bool {
        &&& self.author.len() == PUBLIC_ID_SIZE
        &&& (self.action matches ActionModel::Declaration { with } ==> with.len() == PUBLIC_ID_SIZE)
        &&& forall|i: int| 0 <= i < self.proof.len() ==> (#[trigger] self.proof[i]).len() == SIGNATURE_SIZE
    }

    /// The author's signature fills slot 0. A declaration may also carry, in
    /// slot 1, the declared identity's co-signature; a repudiation has only
    /// slot 0. A passport's genesis, a declaration of its founder by itself,
    /// carries the founder's signature in both slots.
    pub open spec fn is_complete(self) -> bool {
        self.proof.len() == 1 || (self.action is Declaration && self.proof.len() == 2)
    }
}

/// Views of the signatures of an event.
pub open spec fn proof_view(p: Seq<Vec<u8>>) -> Seq<Seq<u8>> {
    p.map_values(|s: Vec<u8>| s@)
}

/// Views of a list of events.
pub open spec fn events_view(v: Seq<Event>) -> Seq<EventModel> {
    v.map_values(|e: Event| e@)
}

impl Event {
    pub open spec fn view(&self) -> EventModel {
        EventModel {
            number: self.number,
            time: self.time,
            author: self.author@,
            action: self.action@,
            proof: proof_view(self.proof@),
        }
    }

    /// An event with no signature yet.
    pub fn unsigned(number: u32, time: u64, author: Vec<u8>, action: EventAction) -> (r: Event)
        ensures
            r@ == (EventModel { number, time, author: author@, action: action@, proof: Seq::empty() }),
    {
        let r = Event { number, time, author, action, proof: Vec::new() };
        assert(proof_view(r.proof@) =~= Seq::empty());
        r
    }

    /// Copies the event.
    pub fn duplicate(&self) -> (r: Event)
        ensures
            r@ == self@,
    {
        let mut proof: Vec<Vec<u8>> = Vec::new();
        let mut i: usize = 0;
        while i < self.proof.len()
            invariant
                i <= self.proof@.len(),
                proof_view(proof@) =~= proof_view(self.proof@).take(i as int),
            decreases self.proof@.len() - i,
        {
            let ghost prev = proof@;
            let c = self.proof[i].clone();
            assert(c@ == self.proof@[i as int]@);
            proof.push(c);
            assert(proof_view(proof@) =~= proof_view(prev).push(c@));
            i = i + 1;
        }
        assert(proof_view(self.proof@).take(i as int) =~= proof_view(self.proof@));
        Event {
            number: self.number,
            time: self.time,
            author: self.author.clone(),
            action: self.action.duplicate(),
            proof,
        }
    }

    /// Sets the signature in slot `index`; every other slot is kept. Slots
    /// below `index` that did not exist yet are left unset (empty), and an
    /// event with an unset slot is not well formed until it is signed.
    pub fn set_signature(&mut self, signature: Vec<u8>, index: usize)
        ensures
            final(self).number == old(self).number,
            final(self).time == old(self).time,
            final(self).author@ == old(self).author@,
            final(self).action@ == old(self).action@,
            final(self)@.proof == signed_slots(old(self)@.proof, signature@, index as int),
    {
        let ghost before = proof_view(self.proof@);
        if index < self.proof.len() {
            self.proof.set(index, signature);
            assert(proof_view(self.proof@) =~= before.update(index as int, signature@));
        } else {
            while self.proof.len() < index
                invariant
                    self.number == old(self).number,
                    self.time == old(self).time,
                    self.author@ == old(self).author@,
                    self.action@ == old(self).action@,
                    before.len() <= self.proof@.len() <= index,
                    proof_view(self.proof@) =~= before + Seq::new(
                        (self.proof@.len() - before.len()) as nat,
                        |j: int| Seq::<u8>::empty(),
                    ),
                decreases index - self.proof@.len(),
            {
                let ghost prev = self.proof@;
                let unset: Vec<u8> = Vec::new();
                self.proof.push(unset);
                assert(proof_view(self.proof@) =~= proof_view(prev).push(Seq::<u8>::empty()));
            }
            let ghost prev = self.proof@;
            self.proof.push(signature);
            assert(proof_view(self.proof@) =~= proof_view(prev).push(signature@));
        }
    }
}

/// The signature slots after setting slot `index` to `sig`; slots added
/// below it are left empty.
pub open spec fn signed_slots(p: Seq<Seq<u8>>, sig: Seq<u8>, index: int) -> Seq<Seq<u8>> {
    if index < p.len() {
        p.update(index, sig)
    } else {
        p + Seq::new((index - p.len()) as nat, |j: int| Seq::<u8>::empty()) + seq![sig]
    }
}

} // verus!
