use vstd::prelude::*;
use crate::codec::message_of;
use crate::crypto::{derive_public, public_key_of, sign_with, signature_by, signature_verifies};
use crate::event::{signed_slots, Event, PUBLIC_ID_SIZE, SIGNATURE_SIZE};
use crate::seed::{bytes_of_hex, hex_of, is_hex_text, Seed, SeedError, SEED_SIZE};

verus! {

/// A seed together with the public identity derived from it.
pub struct Identity {
    seed: Seed,
    public: Vec<u8>,
}

impl Identity {
    /// The seed's bytes.
    pub closed spec fn seed_view(&self) -> Seq<u8> {
        self.seed@
    }

    /// The public identity's bytes.
    pub closed spec fn public_view(&self) -> Seq<u8> {
        self.public@
    }

    /// The public identity is the one derived from the seed.
    pub open spec fn wf(&self) -> bool {
        &&& self.seed_view().len() == SEED_SIZE
        &&& self.public_view() == public_key_of(self.seed_view())
        &&& self.public_view().len() == PUBLIC_ID_SIZE
    }

    /// The identity derived from a freshly drawn `seed`.
    pub fn generate_new(seed: Seed) -> (r: Identity)
        requires
            seed.wf(),
        ensures
            r.wf(),
            r.seed_view() == seed@,
    {
        let public = derive_public(&seed);
        Identity { seed, public }
    }

    /// Reads an identity from the hexadecimal text of its seed, exactly
    /// `2 * SEED_SIZE` digits.
    pub fn import(text: &str) -> (r: Result<Identity, SeedError>)
        ensures
            r is Ok <==> is_hex_text(text@) && text@.len() == 2 * SEED_SIZE,
            r matches Ok(id) ==> id.wf() && id.seed_view() == bytes_of_hex(text@),
            r == Err::<Identity, SeedError>(SeedError::InvalidHex) <==> !is_hex_text(text@),
    {
        match Seed::from_hex(text) {
            Ok(seed) => Ok(Identity::generate_new(seed)),
            Err(e) => Err(e),
        }
    }

    /// The only serialization of an identity: its seed in hexadecimal. It
    /// holds the secret.
    pub fn export(&self) -> (r: String)
        ensures
            r@ == hex_of(self.seed_view()),
    {
        self.seed.to_hex()
    }

    /// The public identity.
    pub fn public_id(&self) -> (r: Vec<u8>)
        ensures
            r@ == self.public_view(),
    {
        self.public.clone()
    }

    /// The seed.
    pub fn seed(&self) -> (r: &Seed)
        ensures
            r@ == self.seed_view(),
    {
        &self.seed
    }

    /// The identity's signature of `message`.
    pub fn sign(&self, message: &Vec<u8>) -> (r: Vec<u8>)
        requires
            self.wf(),
        ensures
            r@ == signature_by(self.seed_view(), message@),
            r@.len() == SIGNATURE_SIZE,
            signature_verifies(self.public_view(), message@, r@),
    {
        sign_with(&self.seed, message)
    }
}

impl Event {
    /// Makes `identity` the author and signs the event with it in slot 0.
    pub fn force_self_sign(&mut self, identity: &Identity)
        requires
            identity.wf(),
        ensures
            final(self).number == old(self).number,
            final(self).time == old(self).time,
            final(self).author@ == identity.public_view(),
            final(self).action@ == old(self).action@,
            final(self)@.proof == signed_slots(
                old(self)@.proof,
                signature_by(identity.seed_view(), message_of(final(self)@)),
                0,
            ),
            signature_by(identity.seed_view(), message_of(final(self)@)).len() == SIGNATURE_SIZE,
            signature_verifies(
                identity.public_view(),
                message_of(final(self)@),
                signature_by(identity.seed_view(), message_of(final(self)@)),
            ),
    {
        self.author = identity.public_id();
        let message = self.signing_message();
        let signature = identity.sign(&message);
        self.set_signature(signature, 0);
    }

    /// Signs the event with `identity` in slot `index`, leaving the other
    /// slots as they are.
    pub fn force_signature(&mut self, identity: &Identity, index: usize)
        requires
            identity.wf(),
        ensures
            final(self).number == old(self).number,
            final(self).time == old(self).time,
            final(self).author@ == old(self).author@,
            final(self).action@ == old(self).action@,
            final(self)@.proof == signed_slots(
                old(self)@.proof,
                signature_by(identity.seed_view(), message_of(old(self)@)),
                index as int,
            ),
            signature_by(identity.seed_view(), message_of(old(self)@)).len() == SIGNATURE_SIZE,
            signature_verifies(
                identity.public_view(),
                message_of(old(self)@),
                signature_by(identity.seed_view(), message_of(old(self)@)),
            ),
    {
        let message = self.signing_message();
        let signature = identity.sign(&message);
        self.set_signature(signature, index);
    }
}

} // verus!
