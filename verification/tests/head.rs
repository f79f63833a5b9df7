use grexa_db::head::{field, head_slice, scan_int_field};

#[test]
fn heads_of_files() {
    assert_eq!(head_slice("---\na: 1\n---\nbody"), Some("a: 1\n"));
    assert_eq!(head_slice("\u{feff}---\r\na: 1\r\n---\r\n"), Some("a: 1\r\n"));
    assert_eq!(head_slice("---\n---\n"), Some(""));
    assert_eq!(head_slice("---\na: 1\n"), None);
    assert_eq!(head_slice("a: 1\n"), None);
}

#[test]
fn fields_of_heads() {
    let head = "title: A b \nrating:5\nratings: 6\nrating: 7\n";
    assert_eq!(field(head, "title").as_deref(), Some("A b"));
    assert_eq!(field(head, "rating").as_deref(), Some("5"));
    assert_eq!(field(head, "absent"), None);
    assert_eq!(scan_int_field(head, "rating"), Some(5));
    assert_eq!(scan_int_field(head, "ratings"), Some(6));
    assert_eq!(scan_int_field(head, "title"), None);
    assert_eq!(scan_int_field(head, "absent"), None);
}
