use web2050::coordinator::{Coordinator, Role};
use web2050::resolver::{resolve, ValidationError};

#[test]
fn first_acquire_is_generator_second_waits() {
    let mut c = Coordinator::new();
    let key = String::from("example.com");
    assert_eq!(c.acquire(&key), Role::Generator);
    assert_eq!(c.acquire(&key), Role::Waiter);
    assert_eq!(c.acquire(&key), Role::Waiter);
}

#[test]
fn release_frees_the_key() {
    let mut c = Coordinator::new();
    let key = String::from("example.com");
    assert_eq!(c.acquire(&key), Role::Generator);
    assert!(c.contains(&key));
    c.release(&key);
    assert!(!c.contains(&key));
    assert_eq!(c.acquire(&key), Role::Generator);
}

#[test]
fn keys_coalesce_independently() {
    let mut c = Coordinator::new();
    let a = String::from("example.com");
    let b = String::from("example.org");
    assert_eq!(c.acquire(&a), Role::Generator);
    assert_eq!(c.acquire(&b), Role::Generator);
    assert_eq!(c.acquire(&a), Role::Waiter);
    c.release(&a);
    assert!(!c.contains(&a));
    assert!(c.contains(&b));
}

#[test]
fn sibling_request_waits_then_generates_its_own_artifact() {
    // Two concurrent requests under one key, an empty cache: the first
    // becomes the generator; the second waits, wakes after the release,
    // finds its own artifact still absent, and generates it itself.
    let mut coordinator = Coordinator::new();
    let mut storage: Vec<String> = Vec::new();

    let first = resolve("/example.com/index.html").unwrap();
    let second = resolve("/example.com/style.css").unwrap();
    assert_eq!(first.key, second.key);

    assert_eq!(coordinator.acquire(&first.key), Role::Generator);
    let second_role = coordinator.acquire(&second.key);
    assert_eq!(second_role, Role::Waiter);

    // The generator finishes: the artifact lands, the key is released, the
    // waiter is woken.
    storage.push(first.path.clone());
    coordinator.release(&first.key);

    // The woken waiter re-enters: its artifact is still absent, so it
    // becomes the generator for its own path under the same key.
    assert!(!storage.contains(&second.path));
    assert_eq!(coordinator.acquire(&second.key), Role::Generator);
    storage.push(second.path.clone());
    coordinator.release(&second.key);

    assert_eq!(storage, vec!["example.com/index.html", "example.com/style.css"]);
}

#[test]
fn rejected_request_never_touches_the_registry() {
    // A path over the length bound is rejected before any coordination:
    // no entry for its key is ever created.
    let mut coordinator = Coordinator::new();
    let raw = format!("/example.com/{}.css", "a".repeat(80));
    match resolve(&raw) {
        Ok(r) => {
            coordinator.acquire(&r.key);
            panic!("an overlong path must be rejected");
        }
        Err(e) => assert_eq!(e, ValidationError::UriTooLong),
    }
    assert!(!coordinator.contains(&String::from("example.com")));
}
