//! The canonical text of a pattern, and the laws that tie it to the parser:
//! item texts separated by whitespace parse back to the items they came from.

use vstd::prelude::*;
use vstd::string::StringExecFns;
use crate::pattern::{
    chord_at, decimal, digits_end, is_digit, is_space, item_at, items_from, items_model, key_at,
    note_at, notes_from, parse_spec, rest_at, shorthand, skip_space, ItemModel, Note,
    PatternItem, Rejection, Velocity,
};

verus! {

pub open spec fn digit_char(d: nat) -> char {
    if d == 0 {
        '0'
    } else if d == 1 {
        '1'
    } else if d == 2 {
        '2'
    } else if d == 3 {
        '3'
    } else if d == 4 {
        '4'
    } else if d == 5 {
        '5'
    } else if d == 6 {
        '6'
    } else if d == 7 {
        '7'
    } else if d == 8 {
        '8'
    } else {
        '9'
    }
}

/// The decimal digits of `k`, without leading zeros.
pub open spec fn decimal_text(k: u8) -> Seq<char> {
    if k < 10 {
        seq![digit_char(k as nat)]
    } else if k < 100 {
        seq![digit_char((k / 10) as nat), digit_char((k % 10) as nat)]
    } else {
        seq![digit_char((k / 100) as nat), digit_char(((k / 10) % 10) as nat), digit_char((k % 10) as nat)]
    }
}

/// Whether `k` has a one-letter name.
pub open spec fn is_named(k: u8) -> bool {
    k == 32 || k == 75 || k == 42 || k == 35 || k == 38
}

/// A key is written by its one-letter name where it has one, else in decimal.
pub open spec fn key_text(k: u8) -> Seq<char> {
    if k == 32 {
        seq!['m']
    } else if k == 75 {
        seq!['c']
    } else if k == 42 {
        seq!['h']
    } else if k == 35 {
        seq!['b']
    } else if k == 38 {
        seq!['s']
    } else {
        decimal_text(k)
    }
}

pub open spec fn velocity_text(v: Velocity) -> Seq<char> {
    match v {
        Velocity::Default => seq![],
        Velocity::Accented => seq!['>'],
        Velocity::Ghosted => seq![','],
    }
}

pub open spec fn note_text(n: Note) -> Seq<char> {
    key_text(n.key) + velocity_text(n.vel)
}

/// Notes separated by single spaces.
pub open spec fn notes_text(ns: Seq<Note>) -> Seq<char>
    decreases ns.len(),
{
    if ns.len() <= 1 {
        if ns.len() == 0 {
            seq![]
        } else {
            note_text(ns[0])
        }
    } else {
        note_text(ns[0]) + seq![' '] + notes_text(ns.drop_first())
    }
}

/// A rest is `r`, a single note is written bare, other groups as a chord.
pub open spec fn item_text(it: ItemModel) -> Seq<char> {
    match it {
        ItemModel::Rest => seq!['r'],
        ItemModel::Notes(ns) => if ns.len() == 1 {
            note_text(ns[0])
        } else {
            seq!['('] + notes_text(ns) + seq![')']
        },
    }
}

/// Each item's text followed by its gap.
pub open spec fn spaced_text(items: Seq<ItemModel>, gaps: Seq<Seq<char>>) -> Seq<char>
    decreases items.len(),
{
    if items.len() == 0 {
        seq![]
    } else {
        item_text(items[0]) + gaps[0] + spaced_text(items.drop_first(), gaps.drop_first())
    }
}

/// The gaps of the canonical text: one space between items.
pub open spec fn canonical_gaps(n: nat) -> Seq<Seq<char>> {
    Seq::new(n, |i: int| if i + 1 < n { seq![' '] } else { seq![] })
}

/// The canonical text of a pattern.
pub open spec fn pattern_text(items: Seq<ItemModel>) -> Seq<char> {
    spaced_text(items, canonical_gaps(items.len()))
}

/// An item that the parser can produce: a group holds at least one note.
pub open spec fn well_formed_item(it: ItemModel) -> bool {
    match it {
        ItemModel::Rest => true,
        ItemModel::Notes(ns) => ns.len() > 0,
    }
}

pub open spec fn all_space(w: Seq<char>) -> bool {
    forall|k: int| 0 <= k < w.len() ==> is_space(#[trigger] w[k])
}

pub open spec fn ends_in_digit(t: Seq<char>) -> bool {
    t.len() > 0 && is_digit(t.last())
}

pub open spec fn starts_with_digit(t: Seq<char>) -> bool {
    t.len() > 0 && is_digit(t[0])
}

/// Gaps that separate the items' texts: whitespace only, and not empty
/// between a text that ends in a digit and one that starts with a digit
/// (those two would read as one number).
pub open spec fn gaps_separate(items: Seq<ItemModel>, gaps: Seq<Seq<char>>) -> bool {
    &&& gaps.len() == items.len()
    &&& forall|i: int| 0 <= i < gaps.len() ==> all_space(#[trigger] gaps[i])
    &&& forall|i: int|
        0 <= i < items.len() - 1 && (#[trigger] gaps[i]).len() == 0 ==> !(ends_in_digit(
            item_text(items[i]),
        ) && starts_with_digit(item_text(items[i + 1])))
}

/// `t` stands in `s` from position `i` on.
pub open spec fn text_at(s: Seq<char>, i: int, t: Seq<char>) -> bool {
    0 <= i && i + t.len() <= s.len() && s.subrange(i, i + t.len()) == t
}

proof fn lemma_text_at_index(s: Seq<char>, i: int, t: Seq<char>, k: int)
    requires
        text_at(s, i, t),
        0 <= k < t.len(),
    ensures
        s[i + k] == t[k],
{
    assert(s.subrange(i, i + t.len())[k] == t[k]);
}

proof fn lemma_text_at_split(s: Seq<char>, i: int, a: Seq<char>, b: Seq<char>)
    requires
        text_at(s, i, a + b),
    ensures
        text_at(s, i, a),
        text_at(s, i + a.len(), b),
{
    assert forall|k: int| 0 <= k < a.len() implies s.subrange(i, i + a.len())[k] == a[k] by {
        lemma_text_at_index(s, i, a + b, k);
    }
    assert forall|k: int| 0 <= k < b.len() implies s.subrange(
        i + a.len(),
        i + a.len() + b.len(),
    )[k] == b[k] by {
        lemma_text_at_index(s, i, a + b, a.len() + k);
    }
    assert(s.subrange(i, i + a.len()) =~= a);
    assert(s.subrange(i + a.len(), i + a.len() + b.len()) =~= b);
}

proof fn lemma_skip_run(s: Seq<char>, i: int, w: Seq<char>)
    requires
        text_at(s, i, w),
        all_space(w),
        i + w.len() == s.len() || !is_space(s[i + w.len()]),
    ensures
        skip_space(s, i) == i + w.len(),
    decreases w.len(),
{
    if w.len() > 0 {
        assert(w =~= seq![w[0]] + w.drop_first());
        lemma_text_at_split(s, i, seq![w[0]], w.drop_first());
        lemma_text_at_index(s, i, w, 0);
        assert(all_space(w.drop_first()));
        lemma_skip_run(s, i + 1, w.drop_first());
    }
}

proof fn lemma_digit_char(d: nat)
    requires
        d < 10,
    ensures
        is_digit(digit_char(d)),
        (digit_char(d) as u32) - 48 == d,
{
}

proof fn lemma_decimal_text(k: u8)
    ensures
        forall|j: int| 0 <= j < decimal_text(k).len() ==> is_digit(#[trigger] decimal_text(k)[j]),
        decimal(decimal_text(k)) == k,
        1 <= decimal_text(k).len() <= 3,
{
    let t = decimal_text(k);
    lemma_digit_char((k % 10) as nat);
    lemma_digit_char(((k / 10) % 10) as nat);
    let a = (k / 100) as nat;
    let b = ((k / 10) % 10) as nat;
    let c = (k % 10) as nat;
    assert(decimal(seq![]) == 0);
    if k < 10 {
        lemma_digit_char(k as nat);
        assert(t.drop_last() =~= seq![]);
        assert(decimal(t) == k);
    } else if k < 100 {
        let h = (k / 10) as nat;
        lemma_digit_char(h);
        let t1 = seq![digit_char(h)];
        assert(t1.drop_last() =~= seq![]);
        assert(decimal(t1) == h);
        assert(t.drop_last() =~= t1);
        assert(decimal(t) == h * 10 + c);
    } else {
        lemma_digit_char(a);
        let t1 = seq![digit_char(a)];
        let t2 = seq![digit_char(a), digit_char(b)];
        assert(t1.drop_last() =~= seq![]);
        assert(decimal(t1) == a);
        assert(t2.drop_last() =~= t1);
        assert(decimal(t2) == a * 10 + b);
        assert(t.drop_last() =~= t2);
        assert(decimal(t) == (a * 10 + b) * 10 + c);
    }
}

proof fn lemma_digits_run(s: Seq<char>, i: int, w: Seq<char>)
    requires
        text_at(s, i, w),
        forall|j: int| 0 <= j < w.len() ==> is_digit(#[trigger] w[j]),
        i + w.len() == s.len() || !is_digit(s[i + w.len()]),
    ensures
        digits_end(s, i) == i + w.len(),
    decreases w.len(),
{
    if w.len() > 0 {
        assert(w =~= seq![w[0]] + w.drop_first());
        lemma_text_at_split(s, i, seq![w[0]], w.drop_first());
        lemma_text_at_index(s, i, w, 0);
        assert(is_digit(w[0]));
        lemma_digits_run(s, i + 1, w.drop_first());
    }
}

/// What the first character of a key's text is.
proof fn lemma_key_text_start(k: u8)
    ensures
        key_text(k).len() > 0,
        is_named(k) ==> key_text(k).len() == 1 && shorthand(key_text(k)[0]) == Some(k),
        !is_named(k) ==> key_text(k) == decimal_text(k),
        is_digit(key_text(k)[0]) <==> !is_named(k),
        is_digit(key_text(k).last()) <==> !is_named(k),
        !is_space(key_text(k)[0]),
        key_text(k)[0] != '>' && key_text(k)[0] != ',' && key_text(k)[0] != ')',
        key_text(k)[0] != '(' && key_text(k)[0] != 'r',
        shorthand(key_text(k)[0]) is None <==> !is_named(k),
{
    lemma_decimal_text(k);
    if !is_named(k) {
        assert(is_digit(decimal_text(k)[0]));
        assert(is_digit(decimal_text(k)[decimal_text(k).len() - 1]));
    }
}

proof fn lemma_key(s: Seq<char>, i: int, k: u8)
    requires
        text_at(s, i, key_text(k)),
        is_named(k) || i + key_text(k).len() == s.len() || !is_digit(s[i + key_text(k).len()]),
    ensures
        key_at(s, i) == Ok::<(u8, int), (int, crate::pattern::FailureCode)>(
            (k, i + key_text(k).len()),
        ),
{
    lemma_key_text_start(k);
    lemma_text_at_index(s, i, key_text(k), 0);
    if !is_named(k) {
        lemma_decimal_text(k);
        lemma_digits_run(s, i, key_text(k));
    }
}

proof fn lemma_note(s: Seq<char>, i: int, n: Note)
    requires
        text_at(s, i, note_text(n)),
        ({
            let e = i + note_text(n).len();
            e == s.len() || (s[e] != '>' && s[e] != ',' && (ends_in_digit(note_text(n))
                ==> !is_digit(s[e])))
        }),
    ensures
        note_at(s, i) == Ok::<(Note, int), (int, crate::pattern::FailureCode)>(
            (n, skip_space(s, i + note_text(n).len())),
        ),
{
    let kt = key_text(n.key);
    let vt = velocity_text(n.vel);
    lemma_key_text_start(n.key);
    lemma_text_at_split(s, i, kt, vt);
    let j = i + kt.len();
    if vt.len() > 0 {
        lemma_text_at_index(s, j, vt, 0);
    } else {
        assert(note_text(n) =~= kt);
    }
    lemma_key(s, i, n.key);
}

proof fn lemma_notes_text_start(ns: Seq<Note>)
    requires
        ns.len() > 0,
    ensures
        notes_text(ns).len() > 0,
        notes_text(ns)[0] == key_text(ns[0].key)[0],
{
    lemma_key_text_start(ns[0].key);
}

proof fn lemma_notes(s: Seq<char>, i: int, ns: Seq<Note>)
    requires
        ns.len() > 0,
        text_at(s, i, notes_text(ns)),
        i + notes_text(ns).len() < s.len(),
        s[i + notes_text(ns).len()] == ')',
    ensures
        notes_from(s, i) == (ns, i + notes_text(ns).len()),
    decreases ns.len(),
{
    let n0 = ns[0];
    let nt = note_text(n0);
    lemma_key_text_start(n0.key);
    if ns.len() == 1 {
        lemma_note(s, i, n0);
        assert(skip_space(s, i + nt.len()) == i + nt.len());
        let e = i + nt.len();
        assert(key_at(s, e) is Err);
        assert(notes_from(s, e) == (Seq::<Note>::empty(), e));
        assert(seq![n0] + Seq::<Note>::empty() =~= ns);
    } else {
        let rest = ns.drop_first();
        lemma_text_at_split(s, i, nt + seq![' '], notes_text(rest));
        lemma_text_at_split(s, i, nt, seq![' ']);
        lemma_text_at_index(s, i + nt.len(), seq![' '], 0);
        lemma_note(s, i, n0);
        lemma_notes_text_start(rest);
        lemma_text_at_index(s, i + nt.len() + 1, notes_text(rest), 0);
        lemma_key_text_start(rest[0].key);
        lemma_skip_run(s, i + nt.len(), seq![' ']);
        lemma_notes(s, i + nt.len() + 1, rest);
        assert(seq![n0] + rest =~= ns);
    }
}

proof fn lemma_item_text_start(it: ItemModel)
    requires
        well_formed_item(it),
    ensures
        item_text(it).len() > 0,
        !is_space(item_text(it)[0]),
        item_text(it)[0] != '>' && item_text(it)[0] != ',',
{
    if let ItemModel::Notes(ns) = it {
        lemma_key_text_start(ns[0].key);
    }
}

proof fn lemma_item(s: Seq<char>, i: int, it: ItemModel, gap: Seq<char>)
    requires
        well_formed_item(it),
        text_at(s, i, item_text(it) + gap),
        all_space(gap),
        ({
            let e = i + item_text(it).len() + gap.len();
            e == s.len() || (!is_space(s[e]) && s[e] != '>' && s[e] != ',' && !(gap.len() == 0
                && ends_in_digit(item_text(it)) && is_digit(s[e])))
        }),
    ensures
        item_at(s, i) == Ok::<(ItemModel, int), (int, crate::pattern::FailureCode)>(
            (it, i + item_text(it).len() + gap.len()),
        ),
{
    let t = item_text(it);
    let e = i + t.len();
    lemma_text_at_split(s, i, t, gap);
    lemma_item_text_start(it);
    lemma_text_at_index(s, i, t, 0);
    lemma_skip_run(s, e, gap);
    if gap.len() > 0 {
        lemma_text_at_index(s, e, gap, 0);
    }
    match it {
        ItemModel::Rest => {
            assert(rest_at(s, i) == Ok::<int, (int, crate::pattern::FailureCode)>(
                skip_space(s, i + 1),
            ));
        },
        ItemModel::Notes(ns) => {
            lemma_key_text_start(ns[0].key);
            if ns.len() == 1 {
                lemma_note(s, i, ns[0]);
                assert(seq![ns[0]] =~= ns);
            } else {
                let inner = notes_text(ns);
                lemma_text_at_split(s, i, seq!['('] + inner, seq![')']);
                lemma_text_at_split(s, i, seq!['('], inner);
                lemma_text_at_index(s, i + 1 + inner.len(), seq![')'], 0);
                lemma_notes_text_start(ns);
                lemma_text_at_index(s, i + 1, inner, 0);
                assert(skip_space(s, i + 1) == i + 1);
                lemma_notes(s, i + 1, ns);
                let (n0, j) = note_at(s, i + 1)->Ok_0;
                lemma_skip_space_bounds_at(s, j);
                assert(key_at(s, i) is Err);
                assert(chord_at(s, i) == Ok::<(Seq<Note>, int), (int, crate::pattern::FailureCode)>(
                    (ns, e + gap.len()),
                ));
            }
        },
    }
}

proof fn lemma_skip_space_bounds_at(s: Seq<char>, i: int)
    ensures
        0 <= i <= s.len() ==> i <= skip_space(s, i) <= s.len(),
    decreases s.len() - i,
{
    if 0 <= i < s.len() && is_space(s[i]) {
        lemma_skip_space_bounds_at(s, i + 1);
    }
}

proof fn lemma_items(s: Seq<char>, i: int, items: Seq<ItemModel>, gaps: Seq<Seq<char>>)
    requires
        forall|k: int| 0 <= k < items.len() ==> well_formed_item(#[trigger] items[k]),
        gaps_separate(items, gaps),
        text_at(s, i, spaced_text(items, gaps)),
        i + spaced_text(items, gaps).len() == s.len(),
    ensures
        items_from(s, i) == (items, s.len() as int),
    decreases items.len(),
{
    if items.len() == 0 {
        assert(key_at(s, i) is Err);
        assert(item_at(s, i) is Err);
    } else {
        let it = items[0];
        let gap = gaps[0];
        let rest = items.drop_first();
        let rest_gaps = gaps.drop_first();
        let t = item_text(it);
        lemma_text_at_split(s, i, t + gap, spaced_text(rest, rest_gaps));
        let e = i + t.len() + gap.len();
        if rest.len() > 0 {
            lemma_item_text_start(rest[0]);
            lemma_text_at_index(s, e, spaced_text(rest, rest_gaps), 0);
            assert(s[e] == item_text(items[1])[0]);
        }
        assert(all_space(gaps[0]));
        lemma_item(s, i, it, gap);
        lemma_item_text_start(it);
        assert forall|k: int| 0 <= k < rest.len() implies well_formed_item(#[trigger] rest[k]) by {
            assert(rest[k] == items[k + 1]);
        }
        assert forall|k: int| 0 <= k < rest_gaps.len() implies all_space(#[trigger] rest_gaps[k]) by {
            assert(rest_gaps[k] == gaps[k + 1]);
        }
        assert forall|k: int|
            0 <= k < rest.len() - 1 && (#[trigger] rest_gaps[k]).len() == 0 implies !(
            ends_in_digit(item_text(rest[k])) && starts_with_digit(item_text(rest[k + 1]))) by {
            assert(rest_gaps[k] == gaps[k + 1]);
            assert(rest[k] == items[k + 1]);
            assert(rest[k + 1] == items[k + 2]);
        }
        lemma_items(s, e, rest, rest_gaps);
        assert(seq![it] + rest =~= items);
    }
}

/// Item texts separated by whitespace parse back to exactly those items, one
/// item per text, in order. The separating whitespace may be empty, except
/// where it would join two numeric keys into one number.
pub proof fn lemma_parse_spaced(items: Seq<ItemModel>, gaps: Seq<Seq<char>>)
    requires
        items.len() > 0,
        forall|k: int| 0 <= k < items.len() ==> well_formed_item(#[trigger] items[k]),
        gaps_separate(items, gaps),
    ensures
        parse_spec(spaced_text(items, gaps)) == Ok::<Seq<ItemModel>, Rejection>(items),
{
    let s = spaced_text(items, gaps);
    assert(s.subrange(0, s.len() as int) =~= s);
    lemma_items(s, 0, items, gaps);
    lemma_item_text_start(items[0]);
    lemma_text_at_split(s, 0, item_text(items[0]) + gaps[0], spaced_text(items.drop_first(), gaps.drop_first()));
    lemma_text_at_split(s, 0, item_text(items[0]), gaps[0]);
    lemma_text_at_index(s, 0, item_text(items[0]), 0);
    assert(skip_space(s, 0) == 0);
    let (it, j) = item_at(s, 0)->Ok_0;
    assert(seq![it] + items_from(s, j).0 =~= items);
}

/// The canonical text of a well-formed, non-empty pattern parses back to it.
pub proof fn lemma_parse_canonical(items: Seq<ItemModel>)
    requires
        items.len() > 0,
        forall|k: int| 0 <= k < items.len() ==> well_formed_item(#[trigger] items[k]),
    ensures
        parse_spec(pattern_text(items)) == Ok::<Seq<ItemModel>, Rejection>(items),
{
    let gaps = canonical_gaps(items.len());
    assert forall|i: int| 0 <= i < gaps.len() implies all_space(#[trigger] gaps[i]) by {
        if i + 1 < items.len() {
            assert(gaps[i] == seq![' ']);
        } else {
            assert(gaps[i] == Seq::<char>::empty());
        }
    }
    lemma_parse_spaced(items, gaps);
}

/// Every item that the parser reads is well-formed.
proof fn lemma_item_well_formed(s: Seq<char>, i: int)
    requires
        item_at(s, i) is Ok,
    ensures
        well_formed_item(item_at(s, i)->Ok_0.0),
{
}

proof fn lemma_items_well_formed(s: Seq<char>, i: int)
    ensures
        forall|k: int|
            0 <= k < items_from(s, i).0.len() ==> well_formed_item(#[trigger] items_from(s, i).0[k]),
    decreases s.len() - i,
{
    if item_at(s, i) is Ok {
        let (it, j) = item_at(s, i)->Ok_0;
        if i < j <= s.len() {
            lemma_item_well_formed(s, i);
            lemma_items_well_formed(s, j);
            let its = items_from(s, j).0;
            assert forall|k: int| 0 <= k < items_from(s, i).0.len() implies well_formed_item(
                #[trigger] items_from(s, i).0[k],
            ) by {
                if k > 0 {
                    assert(items_from(s, i).0[k] == its[k - 1]);
                }
            }
        }
    }
}

/// Parsing is insensitive to layout: re-parsing the canonical text of what a
/// pattern parsed to yields the same items.
pub proof fn lemma_reparse(s: Seq<char>)
    requires
        parse_spec(s) is Ok,
    ensures
        parse_spec(pattern_text(parse_spec(s)->Ok_0)) == parse_spec(s),
{
    let (it, j) = item_at(s, 0)->Ok_0;
    lemma_item_well_formed(s, 0);
    lemma_items_well_formed(s, j);
    let items = parse_spec(s)->Ok_0;
    assert(items == seq![it] + items_from(s, j).0);
    assert forall|k: int| 0 <= k < items.len() implies well_formed_item(#[trigger] items[k]) by {
        if k > 0 {
            assert(items[k] == items_from(s, j).0[k - 1]);
        }
    }
    lemma_parse_canonical(items);
}

proof fn lemma_notes_text_push(a: Seq<Note>, x: Note)
    requires
        a.len() > 0,
    ensures
        notes_text(a.push(x)) == notes_text(a) + seq![' '] + note_text(x),
    decreases a.len(),
{
    assert(a.push(x).drop_first() =~= a.drop_first().push(x));
    assert(a.push(x)[0] == a[0]);
    if a.len() == 1 {
        assert(a.drop_first().push(x) =~= seq![x]);
        assert(notes_text(seq![x]) == note_text(x));
        assert(notes_text(a) == note_text(a[0]));
    } else {
        lemma_notes_text_push(a.drop_first(), x);
        assert(notes_text(a.push(x)) =~= notes_text(a) + seq![' '] + note_text(x));
    }
}

proof fn lemma_pattern_text_single(x: ItemModel)
    ensures
        pattern_text(seq![x]) == item_text(x),
{
    assert(canonical_gaps(1)[0] == Seq::<char>::empty());
    assert(seq![x].drop_first() =~= Seq::<ItemModel>::empty());
    assert(seq![x][0] == x);
    assert(spaced_text(seq![x].drop_first(), canonical_gaps(1).drop_first()) == Seq::<char>::empty());
    assert(pattern_text(seq![x]) =~= item_text(x));
}

proof fn lemma_pattern_text_push(a: Seq<ItemModel>, x: ItemModel)
    requires
        a.len() > 0,
    ensures
        pattern_text(a.push(x)) == pattern_text(a) + seq![' '] + item_text(x),
    decreases a.len(),
{
    let n = a.len();
    assert(a.push(x).drop_first() =~= a.drop_first().push(x));
    assert(canonical_gaps(n + 1).drop_first() =~= canonical_gaps(n));
    assert(canonical_gaps(n + 1)[0] == seq![' ']);
    if n == 1 {
        assert(a.drop_first().push(x) =~= seq![x]);
        assert(canonical_gaps(1).drop_first() =~= canonical_gaps(0));
        lemma_pattern_text_single(x);
        assert(a =~= seq![a[0]]);
        lemma_pattern_text_single(a[0]);
        assert(pattern_text(a.push(x)) =~= pattern_text(a) + seq![' '] + item_text(x));
    } else {
        lemma_pattern_text_push(a.drop_first(), x);
        assert(canonical_gaps(n)[0] == seq![' ']);
        assert(canonical_gaps(n).drop_first() =~= canonical_gaps((n - 1) as nat));
        assert(pattern_text(a.push(x)) =~= pattern_text(a) + seq![' '] + item_text(x));
    }
}

fn digit_str(d: u8) -> (r: &'static str)
    requires
        d < 10,
    ensures
        r@ == seq![digit_char(d as nat)],
{
    let r = if d == 0 {
        proof {
            reveal_strlit("0");
        }
        "0"
    } else if d == 1 {
        proof {
            reveal_strlit("1");
        }
        "1"
    } else if d == 2 {
        proof {
            reveal_strlit("2");
        }
        "2"
    } else if d == 3 {
        proof {
            reveal_strlit("3");
        }
        "3"
    } else if d == 4 {
        proof {
            reveal_strlit("4");
        }
        "4"
    } else if d == 5 {
        proof {
            reveal_strlit("5");
        }
        "5"
    } else if d == 6 {
        proof {
            reveal_strlit("6");
        }
        "6"
    } else if d == 7 {
        proof {
            reveal_strlit("7");
        }
        "7"
    } else if d == 8 {
        proof {
            reveal_strlit("8");
        }
        "8"
    } else {
        proof {
            reveal_strlit("9");
        }
        "9"
    };
    assert(r@ =~= seq![digit_char(d as nat)]);
    r
}

fn push_key(out: &mut String, k: u8)
    ensures
        final(out)@ == old(out)@ + key_text(k),
{
    proof {
        reveal_strlit("m");
        reveal_strlit("c");
        reveal_strlit("h");
        reveal_strlit("b");
        reveal_strlit("s");
    }
    if k == 32 {
        out.append("m");
    } else if k == 75 {
        out.append("c");
    } else if k == 42 {
        out.append("h");
    } else if k == 35 {
        out.append("b");
    } else if k == 38 {
        out.append("s");
    } else if k < 10 {
        out.append(digit_str(k));
    } else if k < 100 {
        out.append(digit_str(k / 10));
        out.append(digit_str(k % 10));
    } else {
        out.append(digit_str(k / 100));
        out.append(digit_str((k / 10) % 10));
        out.append(digit_str(k % 10));
    }
    assert(final(out)@ =~= old(out)@ + key_text(k));
}

fn push_note(out: &mut String, n: Note)
    ensures
        final(out)@ == old(out)@ + note_text(n),
{
    push_key(out, n.key);
    proof {
        reveal_strlit(">");
        reveal_strlit(",");
    }
    match n.vel {
        Velocity::Default => {},
        Velocity::Accented => out.append(">"),
        Velocity::Ghosted => out.append(","),
    }
    assert(final(out)@ =~= old(out)@ + note_text(n));
}

fn push_notes(out: &mut String, ns: &Vec<Note>)
    ensures
        final(out)@ == old(out)@ + notes_text(ns@),
{
    let ghost start = out@;
    let mut k: usize = 0;
    while k < ns.len()
        invariant
            k <= ns.len(),
            out@ == start + notes_text(ns@.subrange(0, k as int)),
        decreases ns.len() - k,
    {
        let ghost done = ns@.subrange(0, k as int);
        if k > 0 {
            out.append(" ");
        }
        push_note(out, ns[k]);
        proof {
            let x = ns@[k as int];
            assert(ns@.subrange(0, k + 1) =~= done.push(x));
            if k > 0 {
                reveal_strlit(" ");
                assert(" "@ =~= seq![' ']);
                lemma_notes_text_push(done, x);
                assert(out@ =~= start + notes_text(done.push(x)));
            } else {
                assert(done.push(x) =~= seq![x]);
                assert(notes_text(seq![x]) == note_text(x));
                assert(done =~= Seq::<Note>::empty());
                assert(out@ =~= start + notes_text(done.push(x)));
            }
        }
        k = k + 1;
    }
    assert(ns@.subrange(0, k as int) =~= ns@);
}

fn push_item(out: &mut String, it: &PatternItem)
    ensures
        final(out)@ == old(out)@ + item_text(it@),
{
    proof {
        reveal_strlit("r");
        reveal_strlit("(");
        reveal_strlit(")");
    }
    match it {
        PatternItem::Rest => out.append("r"),
        PatternItem::Notes(ns) => {
            if ns.len() == 1 {
                push_note(out, ns[0]);
            } else {
                out.append("(");
                push_notes(out, ns);
                out.append(")");
            }
        },
    }
    assert(final(out)@ =~= old(out)@ + item_text(it@));
}

/// The canonical text of a pattern: its items separated by single spaces, keys
/// by their one-letter names where they have one.
pub fn render(items: &Vec<PatternItem>) -> (r: String)
    ensures
        r@ == pattern_text(items_model(items@)),
{
    let ghost model = items_model(items@);
    let mut out = String::new();
    proof {
        assert(model.subrange(0, 0) =~= Seq::<ItemModel>::empty());
        assert(out@ =~= pattern_text(model.subrange(0, 0)));
    }
    let mut k: usize = 0;
    while k < items.len()
        invariant
            k <= items.len(),
            model == items_model(items@),
            out@ == pattern_text(model.subrange(0, k as int)),
        decreases items.len() - k,
    {
        let ghost done = model.subrange(0, k as int);
        if k > 0 {
            out.append(" ");
        }
        push_item(&mut out, &items[k]);
        proof {
            let x = items@[k as int]@;
            assert(model[k as int] == x);
            assert(model.subrange(0, k + 1) =~= done.push(x));
            if k > 0 {
                reveal_strlit(" ");
                assert(" "@ =~= seq![' ']);
                lemma_pattern_text_push(done, x);
                assert(out@ =~= pattern_text(done.push(x)));
            } else {
                assert(done.push(x) =~= seq![x]);
                lemma_pattern_text_single(x);
                assert(done =~= Seq::<ItemModel>::empty());
                assert(out@ =~= pattern_text(done.push(x)));
            }
        }
        k = k + 1;
    }
    assert(model.subrange(0, k as int) =~= model);
    out
}

} // verus!
