use simos::print::Spooler;

#[test]
fn spool_holds_prints_in_order_until_closed() {
    let mut sp = Spooler::new();
    sp.print_init_spool(3);
    sp.print_init_spool(4);
    assert!(sp.print_print(3, 10));
    assert!(sp.print_print(4, 1));
    assert!(sp.print_print(3, -2));
    assert!(!sp.print_print(9, 5));
    assert_eq!(sp.print_end_spool(3), Some(vec![10, -2]));
    assert_eq!(sp.print_end_spool(3), None);
    assert_eq!(sp.print_spool_dump().len(), 1);
    assert_eq!(sp.print_spool_dump()[0].pid, 4);
}

#[test]
fn reopening_a_spool_empties_it() {
    let mut sp = Spooler::new();
    sp.print_init_spool(1);
    sp.print_print(1, 7);
    sp.print_init_spool(1);
    assert_eq!(sp.print_spool_dump().len(), 1);
    assert_eq!(sp.print_end_spool(1), Some(vec![]));
}

#[test]
fn terminate_hands_back_every_spool() {
    let mut sp = Spooler::new();
    sp.print_init_spool(2);
    sp.print_init_spool(1);
    sp.print_print(1, 5);
    let all = sp.print_terminate();
    assert_eq!(all.len(), 2);
    assert_eq!(all[0].pid, 2);
    assert!(all[0].lines.is_empty());
    assert_eq!(all[1].pid, 1);
    assert_eq!(all[1].lines, vec![5]);
    assert!(sp.print_spool_dump().is_empty());
}
