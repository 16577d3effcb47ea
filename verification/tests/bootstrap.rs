use selium::runtime::bootstrap::{
    boot_order, check_unique_names, next_bootstrap_step, BootstrapError, BootstrapStep, GuestDependencies,
};

fn guest(name: &str, dependencies: &[&str]) -> GuestDependencies {
    GuestDependencies {
        name: name.to_owned(),
        dependencies: dependencies.iter().map(|d| d.to_string()).collect(),
    }
}

fn run(guests: &[GuestDependencies]) -> Result<Vec<usize>, BootstrapError> {
    check_unique_names(guests)?;
    let mut done = vec![false; guests.len()];
    let mut order = Vec::new();
    loop {
        match next_bootstrap_step(guests, &done) {
            BootstrapStep::Spawn(i) => {
                assert!(!done[i]);
                done[i] = true;
                order.push(i);
            }
            BootstrapStep::Finished => return Ok(order),
            BootstrapStep::Fail(e) => return Err(e),
        }
    }
}

#[test]
fn guests_boot_after_their_dependencies() {
    let guests = [
        guest("switchboard", &["discovery"]),
        guest("atlas", &["switchboard", "discovery"]),
        guest("discovery", &[]),
    ];
    assert_eq!(run(&guests), Ok(vec![2, 0, 1]));
}

#[test]
fn ready_guests_boot_in_name_order() {
    let guests = [guest("zeta", &[]), guest("alpha", &[]), guest("mid", &["zeta"])];
    assert_eq!(run(&guests), Ok(vec![1, 0, 2]));
    assert_eq!(next_bootstrap_step(&guests, &[false, false, false]), BootstrapStep::Spawn(1));
    assert_eq!(next_bootstrap_step(&guests, &[false, true, false]), BootstrapStep::Spawn(0));
    assert_eq!(next_bootstrap_step(&guests, &[true, true, false]), BootstrapStep::Spawn(2));
    assert_eq!(next_bootstrap_step(&guests, &[true, true, true]), BootstrapStep::Finished);
}

#[test]
fn names_compare_by_code_point_and_prefix() {
    let guests = [guest("ab", &[]), guest("a", &[]), guest("B", &[])];
    assert_eq!(run(&guests), Ok(vec![2, 1, 0]));
}

#[test]
fn duplicate_names_are_refused() {
    let guests = [guest("a", &[]), guest("b", &[]), guest("a", &[]), guest("b", &[])];
    assert_eq!(check_unique_names(&guests), Err(BootstrapError::DuplicateDescriptor("a".to_owned())));
    assert_eq!(check_unique_names(&guests[..2]), Ok(()));
}

#[test]
fn unknown_dependencies_are_reported() {
    let guests = [
        guest("web", &["db", "cache"]),
        guest("api", &["ghost", "db"]),
        guest("db", &[]),
    ];
    assert_eq!(run(&guests), Err(BootstrapError::UnknownDependency("ghost".to_owned())));
    assert_eq!(
        next_bootstrap_step(&guests, &[false, true, true]),
        BootstrapStep::Fail(BootstrapError::UnknownDependency("cache".to_owned()))
    );
}

#[test]
fn dependency_cycles_are_reported() {
    let guests = [guest("a", &["b"]), guest("b", &["a"]), guest("c", &[])];
    assert_eq!(run(&guests), Err(BootstrapError::DependencyCycle));
    assert_eq!(next_bootstrap_step(&guests, &[false, false, false]), BootstrapStep::Spawn(2));
}

#[test]
fn no_guests_finish_at_once() {
    assert_eq!(run(&[]), Ok(Vec::new()));
}

#[test]
fn boot_order_follows_the_steps() {
    let guests = [
        guest("switchboard", &["discovery"]),
        guest("atlas", &["switchboard", "discovery"]),
        guest("discovery", &[]),
    ];
    assert_eq!(boot_order(&guests), Ok(vec![2, 0, 1]));
    assert_eq!(boot_order(&guests), run(&guests));
    let cycle = [guest("a", &["b"]), guest("b", &["a"])];
    assert_eq!(boot_order(&cycle), Err(BootstrapError::DependencyCycle));
    let dup = [guest("a", &[]), guest("a", &[])];
    assert_eq!(boot_order(&dup), Err(BootstrapError::DuplicateDescriptor("a".to_owned())));
    let unknown = [guest("a", &["zz"])];
    assert_eq!(boot_order(&unknown), Err(BootstrapError::UnknownDependency("zz".to_owned())));
}
