use soundcheck::xml::{parse_xml, Span};

#[test]
fn elements_come_out_nested_with_their_places() {
    let xml = "<?xml version=\"1.0\"?><A x='1'> t <B>b&amp;c</B><C/><!-- <D> --></A>";
    let root = parse_xml(xml).unwrap();
    assert_eq!(root.name, "A");
    assert_eq!(root.children.len(), 2);
    let b = root.child("B").unwrap();
    assert_eq!(b.text, "b&c");
    let Span::Content { start, end } = b.span else {
        panic!("B has content");
    };
    assert_eq!(&xml[start..end], "b&amp;c");
    let Span::Empty { start, end } = root.child("C").unwrap().span else {
        panic!("C is empty");
    };
    assert_eq!(&xml[start..end], "<C/>");
    assert!(root.child("D").is_none());
    assert_eq!(root.text.trim(), "t");
}

#[test]
fn what_is_not_a_document_is_none() {
    assert!(parse_xml("").is_none());
    assert!(parse_xml("plain text").is_none());
    assert!(parse_xml("<A><B></A>").is_none());
    assert!(parse_xml("<A>").is_none());
}
