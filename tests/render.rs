use clicktrack::pattern::{parse, Note, PatternItem, Velocity};
use clicktrack::render::render;

#[test]
fn canonical_text() {
    let items = parse("m>m   c, r h").unwrap();
    assert_eq!(render(&items), "m> m c, r h");
    let items = parse("( c h,)(2 33>)r 7 101").unwrap();
    assert_eq!(render(&items), "(c h,) (2 33>) r 7 101");
    let items = vec![
        PatternItem::Notes(vec![Note { key: 0, vel: Velocity::Default }]),
        PatternItem::Notes(vec![Note { key: 255, vel: Velocity::Ghosted }]),
    ];
    assert_eq!(render(&items), "0 255,");
}

#[test]
fn reparse_canonical_text() {
    for text in ["m>mmm", "  ", "(ch)(c>h,)ch", "r\t(  b s> 12,)\n 99 100 rr", "m>mc,rh", "(3)"] {
        if let Ok(items) = parse(text) {
            assert_eq!(parse(&render(&items)), Ok(items));
        }
    }
    assert_eq!(parse(&render(&parse("(3)").unwrap())).unwrap(), parse("3").unwrap());
}

#[test]
fn items_separated_by_whitespace() {
    let items = parse("r (c h) 12, m>").unwrap();
    assert_eq!(items.len(), 4);
    assert_eq!(parse("r(c h)12,m>").unwrap(), items);
    assert_eq!(parse("r \t(c h)\n12,  m>  ").unwrap(), items);
    // two numeric keys need whitespace between them
    assert_eq!(parse("1 2").unwrap().len(), 2);
    assert_eq!(parse("12").unwrap().len(), 1);
}
