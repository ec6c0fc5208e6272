use system_info::cpu;

#[test]
fn cpu_count_is_positive() {
    assert!(cpu::count() > 0);
}

#[test]
fn affinity_count_wins_when_known() {
    assert_eq!(cpu::choose_count(4, Some(8)), 4);
}

#[test]
fn online_count_is_the_fallback() {
    assert_eq!(cpu::choose_count(0, Some(8)), 8);
    assert_eq!(cpu::choose_count(0, Some(-1)), 0);
    assert_eq!(cpu::choose_count(0, None), 0);
}
