use prize_pool::factory::{CompetitionFactory, FactoryError};

#[test]
fn factory_initialize_twice_fails() {
    let r = CompetitionFactory::initialize(true, "admin".to_string(), vec![1u8; 32]);
    assert_eq!(r.err(), Some(FactoryError::AlreadyInitialized));
}

#[test]
fn salts_follow_deployment_count() {
    let mut f = CompetitionFactory::initialize(false, "admin".to_string(), vec![1u8; 32]).unwrap();
    let first = f.next_salt();
    assert_eq!(first, vec![0u8; 32]);
    f.create_competition("c0".to_string());
    let second = f.next_salt();
    let mut expected = vec![0u8; 32];
    expected[31] = 1;
    assert_eq!(second, expected);
    for i in 1..300 {
        f.create_competition(format!("c{}", i));
    }
    let mut expected = vec![0u8; 32];
    expected[30] = 1;
    expected[31] = 44;
    assert_eq!(f.next_salt(), expected);
    assert_eq!(f.get_competitions().len(), 300);
    assert_eq!(f.get_competitions()[0], "c0");
}
