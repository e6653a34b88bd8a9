use kli::codec::decode_stream;
use kli::{Event, EventAction, Identity, ImportError, Passport, PassportError, Seed};

fn identity(n: u8) -> Identity {
    Identity::generate_new(Seed::from_bytes(vec![n; 32]).unwrap())
}

fn founded(a: &Identity) -> Passport {
    Passport::new(a, 100)
}

fn declaration(p: &Passport, author: &Identity, with: &Identity) -> Event {
    let mut e = p.next_event_declare(author, with.public_id(), 200);
    e.force_signature(with, 1);
    e
}

fn active(p: &Passport) -> Vec<Vec<u8>> {
    let mut ids = p.active_identities();
    ids.sort();
    ids.dedup();
    ids
}

fn sorted(mut ids: Vec<Vec<u8>>) -> Vec<Vec<u8>> {
    ids.sort();
    ids
}

fn numbers(p: &Passport) -> Vec<u32> {
    p.events().iter().map(|e| e.number).collect()
}

#[test]
fn scenario_declare_then_repudiate() {
    let a = identity(1);
    let b = identity(2);
    let mut p = founded(&a);
    assert_eq!(active(&p), vec![a.public_id()]);
    assert_eq!(p.len(), 1);

    let d = p.next_event_declare(&a, b.public_id(), 200);
    assert_eq!(d.number, 2);
    assert_eq!(d.proof.len(), 1);
    assert_eq!(p.load_event(d), Ok(()));
    assert_eq!(active(&p), sorted(vec![a.public_id(), b.public_id()]));

    let r = p.next_event_repudiate(&a, 2, 300);
    assert_eq!(p.load_event(r), Ok(()));
    assert_eq!(active(&p), vec![a.public_id()]);
    assert_eq!(p.len(), 3);
    let events = p.events();
    assert!(matches!(&events[1].action, EventAction::Declaration { with } if *with == b.public_id()));
    assert!(!p.check_identity(&b.public_id()));

    let bytes = p.export();
    let q = Passport::import(&bytes).unwrap();
    assert_eq!(active(&q), vec![a.public_id()]);
    assert_eq!(numbers(&q), vec![1, 2, 3]);
    assert_eq!(q.export(), bytes);
}

#[test]
fn signer_declared_later_is_refused() {
    let a = identity(1);
    let b = identity(2);
    let c = identity(3);
    let mut p = founded(&a);
    let early = declaration(&p, &b, &c);
    assert_eq!(p.load_event(early), Err(PassportError::UnAuthorized));
    assert_eq!(p.len(), 1);

    let d = declaration(&p, &a, &b);
    assert_eq!(p.load_event(d), Ok(()));
    let e = declaration(&p, &b, &c);
    assert_eq!(p.load_event(e), Ok(()));
    assert!(p.check_identity(&c.public_id()));
}

#[test]
fn repudiated_signer_is_refused_with_valid_signature() {
    let a = identity(1);
    let b = identity(2);
    let d4 = identity(4);
    let mut p = founded(&a);
    let d = declaration(&p, &a, &b);
    p.load_event(d).unwrap();
    let r = p.next_event_repudiate(&a, 2, 300);
    p.load_event(r).unwrap();
    let e = declaration(&p, &b, &d4);
    assert!(e.verify());
    assert_eq!(p.load_event(e), Err(PassportError::UnAuthorized));
    assert_eq!(p.len(), 3);
}

#[test]
fn invalid_signature_leaves_chain_unchanged() {
    let a = identity(1);
    let b = identity(2);
    let mut p = founded(&a);
    let before = p.export();

    let mut forged = declaration(&p, &a, &b);
    forged.time = 201;
    assert!(!forged.verify());
    assert_eq!(p.load_event(forged), Err(PassportError::InvalidSignature));

    let mut wrong_cosigner = p.next_event_declare(&a, b.public_id(), 200);
    wrong_cosigner.force_signature(&a, 1);
    assert_eq!(p.load_event(wrong_cosigner), Err(PassportError::InvalidSignature));
    let mut two_slots = p.next_event_repudiate(&a, 1, 300);
    two_slots.force_signature(&a, 1);
    assert_eq!(p.load_event(two_slots), Err(PassportError::InvalidSignature));
    assert_eq!(p.export(), before);
}

#[test]
fn declaration_needs_only_its_author() {
    let a = identity(1);
    let b = identity(2);
    let c = identity(3);
    let mut p = founded(&a);
    let alone = p.next_event_declare(&a, b.public_id(), 200);
    assert!(alone.verify());
    assert_eq!(p.load_event(alone), Ok(()));
    let cosigned = declaration(&p, &b, &c);
    assert_eq!(cosigned.proof.len(), 2);
    assert_eq!(p.load_event(cosigned), Ok(()));
    let back = Passport::import(&p.export()).unwrap();
    assert_eq!(back.events()[1].proof.len(), 1);
    assert_eq!(back.events()[2].proof.len(), 2);
    assert_eq!(active(&back), active(&p));
}

#[test]
fn repudiation_errors() {
    let a = identity(1);
    let b = identity(2);
    let mut p = founded(&a);
    let r = p.next_event_repudiate(&a, 7, 300);
    assert_eq!(p.load_event(r), Err(PassportError::CannotRepudiateUnknownEventId { event_id: 7 }));
    let r = p.next_event_repudiate(&a, 0, 300);
    assert_eq!(p.load_event(r), Err(PassportError::CannotRepudiateUnknownEventId { event_id: 0 }));

    let d = declaration(&p, &a, &b);
    p.load_event(d).unwrap();
    let r = p.next_event_repudiate(&a, 2, 300);
    p.load_event(r).unwrap();
    let again = p.next_event_repudiate(&a, 3, 300);
    assert_eq!(p.load_event(again), Err(PassportError::CannotRepudiateRepudiate));
    let twice = p.next_event_repudiate(&a, 2, 300);
    assert_eq!(p.load_event(twice), Err(PassportError::CannotRepudiateInactive { event_id: 2 }));
    assert_eq!(p.len(), 3);
}

#[test]
fn repudiated_event_is_kept() {
    let a = identity(1);
    let b = identity(2);
    let mut p = founded(&a);
    let d = declaration(&p, &a, &b);
    p.load_event(d).unwrap();
    let declared = p.events()[1].encode();
    let r = p.next_event_repudiate(&a, 2, 300);
    p.load_event(r).unwrap();
    assert_eq!(p.events()[1].encode(), declared);
    assert_eq!(p.events().len(), 3);
}

#[test]
fn append_keeps_earlier_events() {
    let a = identity(1);
    let b = identity(2);
    let mut p = founded(&a);
    let first = p.export();
    let d = declaration(&p, &a, &b);
    p.load_event(d).unwrap();
    let second = p.export();
    assert!(second.starts_with(&first));
    assert!(second.len() > first.len());
}

#[test]
fn malformed_and_out_of_order_events() {
    let a = identity(1);
    let b = identity(2);
    let mut p = founded(&a);
    let mut short = p.next_event_declare(&a, vec![2; 10], 200);
    short.set_signature(vec![0; 64], 1);
    assert_eq!(p.load_event(short), Err(PassportError::Malformed));

    let mut late = Event::unsigned(5, 200, a.public_id(), EventAction::Declaration { with: b.public_id() });
    late.force_self_sign(&a);
    late.force_signature(&b, 1);
    assert_eq!(p.load_event(late), Err(PassportError::OutOfOrder));

    let mut other = Event::unsigned(1, 200, a.public_id(), EventAction::Declaration { with: b.public_id() });
    other.force_self_sign(&a);
    other.force_signature(&b, 1);
    assert!(other.verify());
    assert!(matches!(Passport::new_with(other), Err(PassportError::InvalidGenesis)));

    let mut first = Event::unsigned(1, 200, a.public_id(), EventAction::Repudiation { event: 1 });
    first.force_self_sign(&a);
    assert!(matches!(Passport::import(&first.encode()), Err(ImportError::Chain { index: 0, error: PassportError::InvalidGenesis })));
}

#[test]
fn import_empty_stream_fails() {
    assert!(matches!(Passport::import(&Vec::new()), Err(ImportError::Empty)));
    assert!(matches!(Passport::import_events(&Vec::new()), Err(ImportError::Empty)));
}

#[test]
fn import_without_genesis_fails() {
    let a = identity(1);
    let b = identity(2);
    let mut first = Event::unsigned(1, 200, a.public_id(), EventAction::Declaration { with: b.public_id() });
    first.force_self_sign(&a);
    first.force_signature(&b, 1);
    assert!(first.verify());
    let bytes = first.encode();
    assert!(matches!(
        Passport::import(&bytes),
        Err(ImportError::Chain { index: 0, error: PassportError::InvalidGenesis })
    ));
    assert!(matches!(Passport::new_with(first), Err(PassportError::InvalidGenesis)));
}

#[test]
fn import_with_bad_genesis_signature_fails() {
    let a = identity(1);
    let p = founded(&a);
    let mut bytes = p.export();
    let last = bytes.len() - 1;
    bytes[last] ^= 1;
    assert!(matches!(
        Passport::import(&bytes),
        Err(ImportError::Chain { index: 0, error: PassportError::InvalidSignature })
    ));
}

#[test]
fn import_truncated_stream_fails() {
    let a = identity(1);
    let b = identity(2);
    let mut p = founded(&a);
    let d = declaration(&p, &a, &b);
    p.load_event(d).unwrap();
    let mut bytes = p.export();
    bytes.pop();
    assert!(matches!(Passport::import(&bytes), Err(ImportError::Malformed)));
    let mut bad_tag = p.export();
    bad_tag[1] = 9;
    assert!(matches!(Passport::import(&bad_tag), Err(ImportError::Malformed)));
}

#[test]
fn import_reports_failing_index() {
    let a = identity(1);
    let b = identity(2);
    let mut p = founded(&a);
    let d = declaration(&p, &a, &b);
    p.load_event(d).unwrap();
    let mut bytes = p.export();
    let last = bytes.len() - 1;
    bytes[last] ^= 1;
    assert!(matches!(
        Passport::import(&bytes),
        Err(ImportError::Chain { index: 1, error: PassportError::InvalidSignature })
    ));
}

#[test]
fn replay_is_deterministic() {
    let a = identity(1);
    let b = identity(2);
    let c = identity(3);
    let mut p = founded(&a);
    let d = declaration(&p, &a, &b);
    p.load_event(d).unwrap();
    let d = declaration(&p, &b, &c);
    p.load_event(d).unwrap();
    let r = p.next_event_repudiate(&a, 2, 300);
    p.load_event(r).unwrap();
    let bytes = p.export();
    let x = Passport::import(&bytes).unwrap();
    let y = Passport::import_events(&p.events()).unwrap();
    assert_eq!(active(&x), active(&y));
    assert_eq!(active(&x), active(&p));
    assert_eq!(active(&x), sorted(vec![a.public_id(), c.public_id()]));
}

#[test]
fn genesis_layout() {
    let a = identity(1);
    let p = founded(&a);
    let events = p.events();
    let g = &events[0];
    assert_eq!(g.number, 1);
    assert_eq!(g.time, 100);
    assert_eq!(g.author, a.public_id());
    assert!(matches!(&g.action, EventAction::Declaration { with } if *with == a.public_id()));
    let signature = a.sign(&g.signing_message());
    assert_eq!(g.proof, vec![signature.clone(), signature]);
    assert!(g.verify());
    assert_eq!(active(&Passport::new_with(g.duplicate()).unwrap()), vec![a.public_id()]);
}

#[test]
fn frame_layout_and_decoding() {
    let a = identity(1);
    let p = founded(&a);
    let g = &p.events()[0];
    let frame = g.encode();
    assert_eq!(frame.len(), 78 + 64 + 1 + 2 * 64);
    assert_eq!(&frame[0..2], &[0u8, 3u8]);
    assert_eq!(&frame[2..6], &[0u8, 0, 0, 1]);
    assert_eq!(&frame[6..14], &[0u8, 0, 0, 0, 0, 0, 0, 100]);
    assert_eq!(&frame[14..78], a.public_id().as_slice());
    assert_eq!(&frame[78..142], a.public_id().as_slice());
    assert_eq!(frame[142], 2);
    assert_eq!(&frame[143..207], g.proof[0].as_slice());
    assert_eq!(&frame[207..], g.proof[1].as_slice());
    assert_eq!(g.signing_message(), frame[..142].to_vec());

    let decoded = decode_stream(&frame).unwrap();
    assert_eq!(decoded.len(), 1);
    assert_eq!(decoded[0].number, 1);
    assert_eq!(decoded[0].time, 100);
    assert!(decode_stream(&Vec::new()).unwrap().is_empty());
    assert!(decode_stream(&frame[..100].to_vec()).is_none());
}

#[test]
fn repudiation_frame_carries_target() {
    let a = identity(1);
    let p = founded(&a);
    let r = p.next_event_repudiate(&a, 0x01020304, 0x0a0b0c0d0e0f1011);
    let frame = r.encode();
    assert_eq!(frame.len(), 78 + 4 + 1 + 64);
    assert_eq!(frame[82], 1);
    assert_eq!(&frame[0..2], &[0u8, 2u8]);
    assert_eq!(&frame[6..14], &[0x0au8, 0x0b, 0x0c, 0x0d, 0x0e, 0x0f, 0x10, 0x11]);
    assert_eq!(&frame[78..82], &[1u8, 2, 3, 4]);
    let back = decode_stream(&frame).unwrap();
    assert!(matches!(back[0].action, EventAction::Repudiation { event: 0x01020304 }));
    assert_eq!(back[0].time, 0x0a0b0c0d0e0f1011);
}

#[test]
fn set_signature_leaves_other_slots() {
    let a = identity(1);
    let mut e = Event::unsigned(2, 0, a.public_id(), EventAction::Declaration { with: a.public_id() });
    e.set_signature(vec![9; 64], 1);
    assert_eq!(e.proof, vec![Vec::new(), vec![9; 64]]);
    assert!(!e.well_sized());
    e.set_signature(vec![1; 64], 0);
    assert_eq!(e.proof, vec![vec![1; 64], vec![9; 64]]);
    assert!(e.well_sized());
}

#[test]
fn repudiating_the_founder_empties_the_active_set() {
    let a = identity(1);
    let b = identity(2);
    let mut p = founded(&a);
    let d = declaration(&p, &a, &b);
    p.load_event(d).unwrap();
    let r = p.next_event_repudiate(&b, 1, 300);
    assert_eq!(p.load_event(r), Ok(()));
    assert_eq!(active(&p), vec![b.public_id()]);
}

#[test]
fn frame_decoding_rejects_unknown_tag() {
    let a = identity(1);
    let mut frame = founded(&a).export();
    frame[1] = 1;
    assert!(decode_stream(&frame).is_none());
}

#[test]
fn frame_decoding_rejects_bad_signature_count() {
    let a = identity(1);
    let mut frame = founded(&a).export();
    frame[142] = 3;
    assert!(decode_stream(&frame).is_none());
    let p = founded(&a);
    let mut r = p.next_event_repudiate(&a, 1, 300).encode();
    r[82] = 2;
    assert!(decode_stream(&r).is_none());
}
