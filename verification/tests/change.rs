use libpijul::change::{hash_in, Change};
use libpijul::pristine::ChangeHash;

fn hash(n: u64) -> ChangeHash {
    ChangeHash::Blake3(n, 0, 0, 0)
}

#[test]
fn changes_know_their_dependencies_and_extra_known_changes() {
    let c = Change { dependencies: vec![hash(1)], extra_known: vec![hash(2)], changes: Vec::new() };
    assert!(c.knows(&hash(1)));
    assert!(c.knows(&hash(2)));
    assert!(!c.knows(&hash(3)));
    assert!(hash_in(&c.dependencies, &hash(1)));
    assert!(!hash_in(&c.dependencies, &hash(2)));
}
