//! The shapes of Thai character clusters, and how a text is matched
//! against them.
//!
//! A shape is a row of items. An item stands for one character out of a
//! class of characters, and may be optional. A shape may end in a karan: a
//! silent final consonant group under a thanthakhat, which is there as a
//! whole or not at all.

use crate::four_bytes_str::custom_string::push_char;
use vstd::prelude::*;

verus! {

/// The consonant ko kai, the first consonant.
pub const KO_KAI: char = '\u{0E01}';
/// The consonant yo yak.
pub const YO_YAK: char = '\u{0E22}';
/// The consonant ro rua.
pub const RO_RUA: char = '\u{0E23}';
/// The consonant wo waen.
pub const WO_WAEN: char = '\u{0E27}';
/// The consonant ho hip.
pub const HO_HIP: char = '\u{0E2B}';
/// The consonant o ang.
pub const O_ANG: char = '\u{0E2D}';
/// The consonant ho nokhuk, the last consonant.
pub const HO_NOKHUK: char = '\u{0E2E}';
/// The vowel sara a.
pub const SARA_A: char = '\u{0E30}';
/// The vowel mai han-akat.
pub const MAI_HAN_AKAT: char = '\u{0E31}';
/// The vowel sara aa.
pub const SARA_AA: char = '\u{0E32}';
/// The vowel sara am.
pub const SARA_AM: char = '\u{0E33}';
/// The vowel sara i.
pub const SARA_I: char = '\u{0E34}';
/// The vowel sara ii.
pub const SARA_II: char = '\u{0E35}';
/// The vowel sara ue.
pub const SARA_UE: char = '\u{0E36}';
/// The vowel sara uee.
pub const SARA_UEE: char = '\u{0E37}';
/// The vowel sara u.
pub const SARA_U: char = '\u{0E38}';
/// The vowel sara uu.
pub const SARA_UU: char = '\u{0E39}';
/// The leading vowel sara e.
pub const SARA_E: char = '\u{0E40}';
/// The leading vowel sara ae.
pub const SARA_AE: char = '\u{0E41}';
/// The leading vowel sara o.
pub const SARA_O: char = '\u{0E42}';
/// The leading vowel sara ai maimalai, the last leading vowel.
pub const SARA_AI_MAIMALAI: char = '\u{0E44}';
/// The mark maitaikhu.
pub const MAITAIKHU: char = '\u{0E47}';
/// The tone mark mai ek, the first tone mark.
pub const MAI_EK: char = '\u{0E48}';
/// The tone mark mai chattawa, the last tone mark.
pub const MAI_CHATTAWA: char = '\u{0E4B}';
/// The mark thanthakhat, which silences what it stands on.
pub const THANTHAKHAT: char = '\u{0E4C}';

/// A class of characters: those of three ranges, each with both ends
/// included.
#[derive(Clone, Copy)]
pub struct CharClass {
    pub low: char,
    pub high: char,
    pub second_low: char,
    pub second_high: char,
    pub third_low: char,
    pub third_high: char,
}

/// One place of a shape: a character of `class`, which may be left out
/// where `optional` is set.
#[derive(Clone, Copy)]
pub struct Item {
    pub class: CharClass,
    pub optional: bool,
}

impl CharClass {
    /// Whether `c` is in the class.
    pub open spec fn contains(self, c: char) -> bool {
        ||| self.low <= c <= self.high
        ||| self.second_low <= c <= self.second_high
        ||| self.third_low <= c <= self.third_high
    }

    /// Whether `c` is in the class.
    pub fn holds(&self, c: char) -> (r: bool)
        ensures
            r == self.contains(c),
    {
        (self.low <= c && c <= self.high) || (self.second_low <= c && c <= self.second_high) || (
        self.third_low <= c && c <= self.third_high)
    }
}

/// The class of the characters from `low` to `high`.
pub open spec fn span(low: char, high: char) -> CharClass {
    spans(low, high, low, high)
}

/// The class of the characters of two ranges.
pub open spec fn spans(low: char, high: char, second_low: char, second_high: char) -> CharClass {
    CharClass {
        low: low,
        high: high,
        second_low: second_low,
        second_high: second_high,
        third_low: low,
        third_high: high,
    }
}

/// The class of the two characters `a` and `b`.
pub open spec fn either(a: char, b: char) -> CharClass {
    spans(a, a, b, b)
}

/// The class of the three characters `a`, `b` and `c`.
pub open spec fn any_of(a: char, b: char, c: char) -> CharClass {
    CharClass { low: a, high: a, second_low: b, second_high: b, third_low: c, third_high: c }
}

/// One character of `class`.
pub open spec fn need(class: CharClass) -> Item {
    Item { class: class, optional: false }
}

/// One character of `class`, or nothing.
pub open spec fn may(class: CharClass) -> Item {
    Item { class: class, optional: true }
}

/// The character `c`.
pub open spec fn just(c: char) -> Item {
    need(span(c, c))
}

/// A Thai consonant.
pub open spec fn consonant() -> Item {
    need(span(KO_KAI, HO_NOKHUK))
}

/// A tone mark, or nothing.
pub open spec fn tone() -> Item {
    may(span(MAI_EK, MAI_CHATTAWA))
}

/// Whether the `items` match the characters of `text` from `from` up to
/// `to`, none of them at `limit` or beyond.
pub open spec fn items_match(items: Seq<Item>, text: Seq<char>, limit: int, from: int, to: int) -> bool
    decreases items.len(),
{
    if items.len() == 0 {
        from == to
    } else {
        ||| items[0].optional && items_match(items.drop_first(), text, limit, from, to)
        ||| 0 <= from < limit <= text.len() && items[0].class.contains(text[from]) && items_match(
            items.drop_first(),
            text,
            limit,
            from + 1,
            to,
        )
    }
}

/// The karan: a consonant, perhaps a second one, perhaps a vowel below or
/// above, and the thanthakhat.
pub open spec fn karan_items() -> Seq<Item> {
    seq![
        consonant(),
        may(span(KO_KAI, HO_NOKHUK)),
        may(spans(SARA_I, SARA_I, SARA_U, SARA_UU)),
        just(THANTHAKHAT),
    ]
}

/// A shape: its items, and whether a karan may follow them.
pub struct Shape {
    pub items: Seq<Item>,
    pub karan: bool,
}

/// Whether `shape` matches the characters of `text` from `from` up to `to`.
pub open spec fn shape_matches(shape: Shape, text: Seq<char>, limit: int, from: int, to: int) -> bool {
    ||| items_match(shape.items, text, limit, from, to)
    ||| shape.karan && items_match(shape.items + karan_items(), text, limit, from, to)
}

/// The shapes of the clusters.
pub open spec fn cluster_shapes() -> Seq<Shape> {
    seq![
        Shape { items: seq![just(SARA_E), consonant(), just(MAITAIKHU), consonant()], karan: true },
        Shape {
            items: seq![just(SARA_E), consonant(), consonant(), tone(), just(SARA_AA), just(SARA_A)],
            karan: true,
        },
        Shape {
            items: seq![
                just(SARA_E),
                consonant(),
                consonant(),
                just(SARA_II),
                tone(),
                just(YO_YAK),
                just(SARA_A),
            ],
            karan: true,
        },
        Shape {
            items: seq![just(SARA_E), consonant(), consonant(), just(MAITAIKHU), consonant()],
            karan: true,
        },
        Shape {
            items: seq![
                just(SARA_E),
                consonant(),
                just(SARA_I),
                consonant(),
                just(THANTHAKHAT),
                consonant(),
            ],
            karan: true,
        },
        Shape {
            items: seq![just(SARA_E), consonant(), just(SARA_I), tone(), consonant()],
            karan: true,
        },
        Shape {
            items: seq![
                just(SARA_E),
                consonant(),
                just(SARA_II),
                tone(),
                just(YO_YAK),
                may(span(SARA_A, SARA_A)),
            ],
            karan: true,
        },
        Shape {
            items: seq![
                just(SARA_E),
                consonant(),
                just(SARA_UEE),
                tone(),
                just(O_ANG),
                may(span(SARA_A, SARA_A)),
            ],
            karan: true,
        },
        Shape {
            items: seq![
                just(SARA_E),
                consonant(),
                tone(),
                may(span(SARA_AA, SARA_AA)),
                may(span(SARA_A, SARA_A)),
            ],
            karan: true,
        },
        Shape {
            items: seq![consonant(), just(MAI_HAN_AKAT), tone(), just(WO_WAEN), just(SARA_A)],
            karan: true,
        },
        Shape {
            items: seq![
                consonant(),
                need(either(MAI_HAN_AKAT, SARA_UEE)),
                tone(),
                consonant(),
                may(any_of(SARA_U, SARA_I, SARA_A)),
            ],
            karan: true,
        },
        Shape {
            items: seq![
                consonant(),
                need(any_of(SARA_I, SARA_U, SARA_UU)),
                just(THANTHAKHAT),
            ],
            karan: true,
        },
        Shape { items: seq![consonant(), need(span(SARA_A, SARA_UU)), tone()], karan: true },
        Shape {
            items: seq![consonant(), just(RO_RUA), just(RO_RUA), consonant(), just(THANTHAKHAT)],
            karan: false,
        },
        Shape { items: seq![consonant(), just(MAITAIKHU)], karan: false },
        Shape {
            items: seq![consonant(), tone(), may(any_of(SARA_A, SARA_AA, SARA_AM))],
            karan: true,
        },
        Shape { items: seq![consonant()], karan: true },
        Shape {
            items: seq![just(SARA_AE), consonant(), just(MAITAIKHU), consonant()],
            karan: false,
        },
        Shape {
            items: seq![just(SARA_AE), consonant(), consonant(), just(THANTHAKHAT)],
            karan: false,
        },
        Shape { items: seq![just(SARA_AE), consonant(), tone(), just(SARA_A)], karan: false },
        Shape {
            items: seq![just(SARA_AE), consonant(), consonant(), just(MAITAIKHU), consonant()],
            karan: false,
        },
        Shape {
            items: seq![just(SARA_AE), consonant(), consonant(), consonant(), just(THANTHAKHAT)],
            karan: false,
        },
        Shape { items: seq![just(SARA_O), consonant(), tone(), just(SARA_A)], karan: false },
        Shape { items: seq![need(span(SARA_E, SARA_AI_MAIMALAI)), consonant(), tone()], karan: false },
        Shape { items: seq![just(KO_KAI), just(MAITAIKHU)], karan: false },
        Shape { items: seq![just(O_ANG), just(SARA_UE)], karan: false },
        Shape { items: seq![just(HO_HIP), just(SARA_UE)], karan: false },
    ]
}

/// The shapes whose last character belongs to the next cluster.
pub open spec fn lookahead_shapes() -> Seq<Shape> {
    seq![
        Shape {
            items: seq![
                just(SARA_E),
                consonant(),
                consonant(),
                just(SARA_II),
                tone(),
                just(YO_YAK),
                need(spans(SARA_E, SARA_AI_MAIMALAI, KO_KAI, HO_NOKHUK)),
            ],
            karan: false,
        },
        Shape {
            items: seq![
                just(SARA_E),
                consonant(),
                need(spans(SARA_I, SARA_II, SARA_U, SARA_UU)),
                tone(),
                just(YO_YAK),
                need(spans(SARA_E, SARA_AI_MAIMALAI, KO_KAI, HO_NOKHUK)),
            ],
            karan: false,
        },
    ]
}


/// A shape as the matcher holds it.
pub struct ShapeRow {
    pub items: Vec<Item>,
    pub karan: bool,
}

impl View for ShapeRow {
    type V = Shape;

    open spec fn view(&self) -> Shape {
        Shape { items: self.items@, karan: self.karan }
    }
}

/// The shapes that a table of rows stands for.
pub open spec fn shapes_of(rows: Seq<ShapeRow>) -> Seq<Shape> {
    Seq::new(rows.len(), |i: int| rows[i]@)
}

fn class_of(low: char, high: char, second_low: char, second_high: char) -> (r: CharClass)
    ensures
        r == spans(low, high, second_low, second_high),
{
    CharClass {
        low: low,
        high: high,
        second_low: second_low,
        second_high: second_high,
        third_low: low,
        third_high: high,
    }
}

fn class_of_three(a: char, b: char, c: char) -> (r: CharClass)
    ensures
        r == any_of(a, b, c),
{
    CharClass { low: a, high: a, second_low: b, second_high: b, third_low: c, third_high: c }
}

fn item_need(class: CharClass) -> (r: Item)
    ensures
        r == need(class),
{
    Item { class: class, optional: false }
}

fn item_may(class: CharClass) -> (r: Item)
    ensures
        r == may(class),
{
    Item { class: class, optional: true }
}

fn item_just(c: char) -> (r: Item)
    ensures
        r == just(c),
{
    item_need(class_of(c, c, c, c))
}

fn item_may_be(c: char) -> (r: Item)
    ensures
        r == may(span(c, c)),
{
    item_may(class_of(c, c, c, c))
}

fn item_consonant() -> (r: Item)
    ensures
        r == consonant(),
{
    item_need(class_of(KO_KAI, HO_NOKHUK, KO_KAI, HO_NOKHUK))
}

fn item_tone() -> (r: Item)
    ensures
        r == tone(),
{
    item_may(class_of(MAI_EK, MAI_CHATTAWA, MAI_EK, MAI_CHATTAWA))
}

/// The items of the karan.
pub fn karan_row() -> (r: Vec<Item>)
    ensures
        r@ == karan_items(),
{
    let r = vec![
        item_consonant(),
        item_may(class_of(KO_KAI, HO_NOKHUK, KO_KAI, HO_NOKHUK)),
        item_may(class_of(SARA_I, SARA_I, SARA_U, SARA_UU)),
        item_just(THANTHAKHAT),
    ];
    assert(r@ =~= karan_items());
    r
}

fn push_row(table: &mut Vec<ShapeRow>, items: Vec<Item>, karan: bool)
    ensures
        shapes_of(final(table)@) == shapes_of(old(table)@).push(Shape { items: items@, karan: karan }),
{
    table.push(ShapeRow { items: items, karan: karan });
    assert(shapes_of(table@) =~= shapes_of(old(table)@).push(Shape { items: items@, karan: karan }));
}

/// The table of the shapes of the clusters.
pub fn cluster_shape_table() -> (table: Vec<ShapeRow>)
    ensures
        shapes_of(table@) == cluster_shapes(),
{
    let c = item_consonant();
    let t = item_tone();
    let mut table: Vec<ShapeRow> = Vec::new();
    assert(shapes_of(table@) =~= Seq::<Shape>::empty());
    push_row(&mut table, vec![item_just(SARA_E), c, item_just(MAITAIKHU), c], true);
    push_row(&mut table, vec![item_just(SARA_E), c, c, t, item_just(SARA_AA), item_just(SARA_A)], true);
    push_row(
        &mut table,
        vec![item_just(SARA_E), c, c, item_just(SARA_II), t, item_just(YO_YAK), item_just(SARA_A)],
        true,
    );
    push_row(&mut table, vec![item_just(SARA_E), c, c, item_just(MAITAIKHU), c], true);
    push_row(
        &mut table,
        vec![item_just(SARA_E), c, item_just(SARA_I), c, item_just(THANTHAKHAT), c],
        true,
    );
    push_row(&mut table, vec![item_just(SARA_E), c, item_just(SARA_I), t, c], true);
    push_row(
        &mut table,
        vec![item_just(SARA_E), c, item_just(SARA_II), t, item_just(YO_YAK), item_may_be(SARA_A)],
        true,
    );
    push_row(
        &mut table,
        vec![item_just(SARA_E), c, item_just(SARA_UEE), t, item_just(O_ANG), item_may_be(SARA_A)],
        true,
    );
    push_row(
        &mut table,
        vec![item_just(SARA_E), c, t, item_may_be(SARA_AA), item_may_be(SARA_A)],
        true,
    );
    push_row(
        &mut table,
        vec![c, item_just(MAI_HAN_AKAT), t, item_just(WO_WAEN), item_just(SARA_A)],
        true,
    );
    push_row(
        &mut table,
        vec![
            c,
            item_need(class_of(MAI_HAN_AKAT, MAI_HAN_AKAT, SARA_UEE, SARA_UEE)),
            t,
            c,
            item_may(class_of_three(SARA_U, SARA_I, SARA_A)),
        ],
        true,
    );
    push_row(
        &mut table,
        vec![c, item_need(class_of_three(SARA_I, SARA_U, SARA_UU)), item_just(THANTHAKHAT)],
        true,
    );
    push_row(&mut table, vec![c, item_need(class_of(SARA_A, SARA_UU, SARA_A, SARA_UU)), t], true);
    push_row(&mut table, vec![c, item_just(RO_RUA), item_just(RO_RUA), c, item_just(THANTHAKHAT)], false);
    push_row(&mut table, vec![c, item_just(MAITAIKHU)], false);
    push_row(&mut table, vec![c, t, item_may(class_of_three(SARA_A, SARA_AA, SARA_AM))], true);
    let alone: Vec<Item> = vec![c];
    assert(alone@ =~= seq![consonant()]);
    push_row(&mut table, alone, true);
    push_row(&mut table, vec![item_just(SARA_AE), c, item_just(MAITAIKHU), c], false);
    push_row(&mut table, vec![item_just(SARA_AE), c, c, item_just(THANTHAKHAT)], false);
    push_row(&mut table, vec![item_just(SARA_AE), c, t, item_just(SARA_A)], false);
    push_row(&mut table, vec![item_just(SARA_AE), c, c, item_just(MAITAIKHU), c], false);
    push_row(&mut table, vec![item_just(SARA_AE), c, c, c, item_just(THANTHAKHAT)], false);
    push_row(&mut table, vec![item_just(SARA_O), c, t, item_just(SARA_A)], false);
    push_row(
        &mut table,
        vec![item_need(class_of(SARA_E, SARA_AI_MAIMALAI, SARA_E, SARA_AI_MAIMALAI)), c, t],
        false,
    );
    push_row(&mut table, vec![item_just(KO_KAI), item_just(MAITAIKHU)], false);
    push_row(&mut table, vec![item_just(O_ANG), item_just(SARA_UE)], false);
    push_row(&mut table, vec![item_just(HO_HIP), item_just(SARA_UE)], false);
    assert(shapes_of(table@) =~= cluster_shapes());
    table
}

/// The table of the shapes whose last character belongs to the next cluster.
pub fn lookahead_shape_table() -> (table: Vec<ShapeRow>)
    ensures
        shapes_of(table@) == lookahead_shapes(),
{
    let c = item_consonant();
    let t = item_tone();
    let next = item_need(class_of(SARA_E, SARA_AI_MAIMALAI, KO_KAI, HO_NOKHUK));
    let mut table: Vec<ShapeRow> = Vec::new();
    assert(shapes_of(table@) =~= Seq::<Shape>::empty());
    push_row(
        &mut table,
        vec![item_just(SARA_E), c, c, item_just(SARA_II), t, item_just(YO_YAK), next],
        false,
    );
    push_row(
        &mut table,
        vec![
            item_just(SARA_E),
            c,
            item_need(class_of(SARA_I, SARA_II, SARA_U, SARA_UU)),
            t,
            item_just(YO_YAK),
            next,
        ],
        false,
    );
    assert(shapes_of(table@) =~= lookahead_shapes());
    table
}


/// The pattern for a consonant: `[ก-ฮ]`.
pub open spec fn consonant_pattern() -> Seq<char> {
    seq!['[', KO_KAI, '-', HO_NOKHUK, ']']
}

/// The pattern for a tone mark or nothing: `[่-๋]?`.
pub open spec fn tone_pattern() -> Seq<char> {
    seq!['[', MAI_EK, '-', MAI_CHATTAWA, ']', '?']
}

/// The pattern for the vowels below: `ูุ`.
pub open spec fn vowel_below_pattern() -> Seq<char> {
    seq![SARA_UU, SARA_U]
}

/// The pattern for a karan or nothing: `([ก-ฮ][ก-ฮ]?[ูุิ]?[์])?`.
pub open spec fn karan_pattern() -> Seq<char> {
    seq!['('] + consonant_pattern() + consonant_pattern() + seq!['?', '['] + vowel_below_pattern()
        + seq![SARA_I, ']', '?', '[', THANTHAKHAT, ']', ')', '?']
}

/// What a character of the short notation of a shape stands for in a
/// regular expression: `c` a consonant, `t` a tone mark or nothing, `k` a
/// karan or nothing, `d` the vowels below; any other character itself.
pub open spec fn symbol_pattern(c: char) -> Seq<char> {
    if c == 'k' {
        karan_pattern()
    } else if c == 'c' {
        consonant_pattern()
    } else if c == 't' {
        tone_pattern()
    } else if c == 'd' {
        vowel_below_pattern()
    } else {
        seq![c]
    }
}

/// The regular expression that the short notation `pattern` stands for.
pub open spec fn expanded(pattern: Seq<char>) -> Seq<char>
    decreases pattern.len(),
{
    if pattern.len() == 0 {
        Seq::empty()
    } else {
        expanded(pattern.drop_last()) + symbol_pattern(pattern.last())
    }
}

/// Appends the characters of `chars` to `out`.
fn push_pattern(out: &mut String, chars: &Vec<char>)
    ensures
        final(out)@ == old(out)@ + chars@,
{
    let mut index: usize = 0;
    assert(out@ =~= old(out)@ + chars@.take(0));
    while index < chars.len()
        invariant
            index <= chars@.len(),
            out@ == old(out)@ + chars@.take(index as int),
        decreases chars@.len() - index,
    {
        push_char(out, chars[index]);
        index += 1;
        assert(out@ =~= old(out)@ + chars@.take(index as int));
    }
    assert(chars@.take(index as int) =~= chars@);
}

/// Writes the short notation of a shape out as a regular expression.
pub fn replace_tcc_symbol(tcc_pattern: &str) -> (r: String)
    ensures
        r@ == expanded(tcc_pattern@),
{
    let consonant: Vec<char> = vec!['[', KO_KAI, '-', HO_NOKHUK, ']'];
    let tone: Vec<char> = vec!['[', MAI_EK, '-', MAI_CHATTAWA, ']', '?'];
    let below: Vec<char> = vec![SARA_UU, SARA_U];
    let karan: Vec<char> = vec![
        '(',
        '[',
        KO_KAI,
        '-',
        HO_NOKHUK,
        ']',
        '[',
        KO_KAI,
        '-',
        HO_NOKHUK,
        ']',
        '?',
        '[',
        SARA_UU,
        SARA_U,
        SARA_I,
        ']',
        '?',
        '[',
        THANTHAKHAT,
        ']',
        ')',
        '?',
    ];
    assert(karan@ =~= karan_pattern());
    let mut out: String = String::new();
    for c in it: tcc_pattern.chars()
        invariant
            it.seq() == tcc_pattern@,
            consonant@ == consonant_pattern(),
            tone@ == tone_pattern(),
            below@ == vowel_below_pattern(),
            karan@ == karan_pattern(),
            out@ == expanded(tcc_pattern@.take(it.index() as int)),
    {
        proof {
            let upto = tcc_pattern@.take(it.index() + 1);
            assert(upto.drop_last() =~= tcc_pattern@.take(it.index() as int));
            assert(upto.last() == c);
        }
        if c == 'k' {
            push_pattern(&mut out, &karan);
        } else if c == 'c' {
            push_pattern(&mut out, &consonant);
        } else if c == 't' {
            push_pattern(&mut out, &tone);
        } else if c == 'd' {
            push_pattern(&mut out, &below);
        } else {
            let ghost before = out@;
            push_char(&mut out, c);
            assert(out@ =~= before + seq![c]);
        }
    }
    assert(tcc_pattern@.take(tcc_pattern@.len() as int) =~= tcc_pattern@);
    out
}

} // verus!
