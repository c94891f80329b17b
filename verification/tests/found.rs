use ecs_trie::Found;

#[test]
fn found_follows_its_operations() {
    let mut found: Found<char> = Found::new();
    assert!(found.as_collected().is_empty());
    found.extend(&['c', 'a']);
    found.push_val('t');
    found.branch_end();
    assert_eq!(found.as_collected(), vec![&['c', 'a', 't'][..]]);
    found.push_val('r');
    found.branch_end_continue();
    found.push_val('t');
    found.branch_end();
    found.branch_split(1);
    found.push_val('o');
    found.branch_end_continue();
    assert_eq!(
        found.as_collected(),
        vec![&['c', 'a', 't'][..], &['c', 'a', 'r'][..], &['c', 'a', 'r', 't'][..], &['c', 'o'][..]]
    );
}

#[test]
fn found_split_beyond_the_path_keeps_it() {
    let mut found: Found<u8> = Found::new();
    found.extend(&[1, 2]);
    found.branch_split(5);
    found.branch_end();
    found.branch_split(0);
    found.branch_end();
    found.branch_end();
    assert_eq!(found.as_collected(), vec![&[1u8, 2][..], &[][..], &[][..]]);
}
