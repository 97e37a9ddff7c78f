//! Terminal styles and their escape sequences, and the model of a styled
//! byte stream: a sequence of (style, byte) pairs rendered with
//! deduplication of consecutive equal styles.

use vstd::prelude::*;

verus! {

/// A terminal color/weight class. `Reset` is the neutral state every
/// writer starts in and returns to before each newline.
#[derive(Clone, Copy, PartialEq, Eq, Structural, Debug)]
pub enum Style {
    Reset,
    Gray,
    White,
    Cyan,
    Blue,
    BlueBold,
    Yellow,
    YellowBold,
    Red,
    RedBold,
    Green,
    GreenBold,
}

/// The escape sequence that switches the terminal to the given style.
pub open spec fn style_code(s: Style) -> Seq<u8> {
    match s {
        Style::Reset => seq![27u8, '[' as u8, '0' as u8, 'm' as u8],
        Style::Gray => seq![27u8, '[' as u8, '9' as u8, '0' as u8, 'm' as u8],
        Style::White => seq![27u8, '[' as u8, '3' as u8, '7' as u8, 'm' as u8],
        Style::Cyan => seq![27u8, '[' as u8, '3' as u8, '6' as u8, 'm' as u8],
        Style::Blue => seq![27u8, '[' as u8, '3' as u8, '4' as u8, 'm' as u8],
        Style::BlueBold => seq![
            27u8,
            '[' as u8,
            '3' as u8,
            '4' as u8,
            ';' as u8,
            '1' as u8,
            'm' as u8,
        ],
        Style::Yellow => seq![27u8, '[' as u8, '3' as u8, '3' as u8, 'm' as u8],
        Style::YellowBold => seq![
            27u8,
            '[' as u8,
            '3' as u8,
            '3' as u8,
            ';' as u8,
            '1' as u8,
            'm' as u8,
        ],
        Style::Red => seq![27u8, '[' as u8, '3' as u8, '1' as u8, 'm' as u8],
        Style::RedBold => seq![
            27u8,
            '[' as u8,
            '3' as u8,
            '1' as u8,
            ';' as u8,
            '1' as u8,
            'm' as u8,
        ],
        Style::Green => seq![27u8, '[' as u8, '3' as u8, '2' as u8, 'm' as u8],
        Style::GreenBold => seq![
            27u8,
            '[' as u8,
            '3' as u8,
            '2' as u8,
            ';' as u8,
            '1' as u8,
            'm' as u8,
        ],
    }
}

impl Style {
    /// The escape sequence of this style as bytes.
    pub fn to_bytes(&self) -> (r: Vec<u8>)
        ensures
            r@ == style_code(*self),
    {
        let mut v: Vec<u8> = Vec::new();
        v.push(27u8);
        v.push('[' as u8);
        match self {
            Style::Reset => {
                v.push('0' as u8);
            },
            Style::Gray => {
                v.push('9' as u8);
                v.push('0' as u8);
            },
            Style::White => {
                v.push('3' as u8);
                v.push('7' as u8);
            },
            Style::Cyan => {
                v.push('3' as u8);
                v.push('6' as u8);
            },
            Style::Blue => {
                v.push('3' as u8);
                v.push('4' as u8);
            },
            Style::BlueBold => {
                v.push('3' as u8);
                v.push('4' as u8);
                v.push(';' as u8);
                v.push('1' as u8);
            },
            Style::Yellow => {
                v.push('3' as u8);
                v.push('3' as u8);
            },
            Style::YellowBold => {
                v.push('3' as u8);
                v.push('3' as u8);
                v.push(';' as u8);
                v.push('1' as u8);
            },
            Style::Red => {
                v.push('3' as u8);
                v.push('1' as u8);
            },
            Style::RedBold => {
                v.push('3' as u8);
                v.push('1' as u8);
                v.push(';' as u8);
                v.push('1' as u8);
            },
            Style::Green => {
                v.push('3' as u8);
                v.push('2' as u8);
            },
            Style::GreenBold => {
                v.push('3' as u8);
                v.push('2' as u8);
                v.push(';' as u8);
                v.push('1' as u8);
            },
        }
        v.push('m' as u8);
        proof {
            assert(v@ =~= style_code(*self));
        }
        v
    }
}

/// Bytes emitted by a style switch from `cur` to `s`: nothing when the
/// style is already active, else the escape sequence of `s`.
pub open spec fn emit_style(cur: Style, s: Style) -> Seq<u8> {
    if cur == s {
        Seq::<u8>::empty()
    } else {
        style_code(s)
    }
}

/// Bytes produced by writing the given (style, byte) pairs through a
/// style-deduplicating writer whose active style is `cur`: before each
/// byte, an escape sequence is emitted only when its style differs from
/// the one already active.
pub open spec fn styled_bytes(cur: Style, items: Seq<(Style, u8)>) -> Seq<u8>
    decreases items.len(),
{
    if items.len() == 0 {
        Seq::<u8>::empty()
    } else {
        emit_style(cur, items[0].0) + seq![items[0].1] + styled_bytes(items[0].0, items.drop_first())
    }
}

/// The active style after writing the given pairs starting from `cur`.
pub open spec fn end_style(cur: Style, items: Seq<(Style, u8)>) -> Style
    decreases items.len(),
{
    if items.len() == 0 {
        cur
    } else {
        end_style(items[0].0, items.drop_first())
    }
}

/// All bytes of `bytes` paired with the single style `s`.
pub open spec fn with_style(s: Style, bytes: Seq<u8>) -> Seq<(Style, u8)> {
    bytes.map_values(|b: u8| (s, b))
}

/// `styled_bytes` distributes over concatenation of the item lists.
pub proof fn lemma_styled_bytes_concat(cur: Style, a: Seq<(Style, u8)>, b: Seq<(Style, u8)>)
    ensures
        styled_bytes(cur, a + b) == styled_bytes(cur, a) + styled_bytes(end_style(cur, a), b),
        end_style(cur, a + b) == end_style(end_style(cur, a), b),
    decreases a.len(),
{
    if a.len() == 0 {
        assert(a + b =~= b);
        assert(styled_bytes(cur, a) + styled_bytes(cur, b) =~= styled_bytes(cur, b));
    } else {
        assert((a + b).drop_first() =~= a.drop_first() + b);
        lemma_styled_bytes_concat(a[0].0, a.drop_first(), b);
        assert(styled_bytes(cur, a + b) =~= styled_bytes(cur, a) + styled_bytes(
            end_style(cur, a),
            b,
        ));
    }
}

/// Writing a run of bytes under one style emits at most one escape
/// sequence, at the front.
pub proof fn lemma_styled_bytes_run(cur: Style, s: Style, bytes: Seq<u8>)
    requires
        bytes.len() > 0,
    ensures
        styled_bytes(cur, with_style(s, bytes)) == emit_style(cur, s) + bytes,
        end_style(cur, with_style(s, bytes)) == s,
    decreases bytes.len(),
{
    let items = with_style(s, bytes);
    assert(items[0] == (s, bytes[0]));
    if bytes.len() == 1 {
        assert(items.drop_first().len() == 0);
        assert(styled_bytes(s, items.drop_first()) =~= Seq::<u8>::empty());
        assert(end_style(s, items.drop_first()) == s);
        assert(bytes =~= seq![bytes[0]]);
        assert(styled_bytes(cur, items) =~= emit_style(cur, s) + bytes);
    } else {
        assert(items.drop_first() =~= with_style(s, bytes.drop_first()));
        lemma_styled_bytes_run(s, s, bytes.drop_first());
        assert(emit_style(s, s) + bytes.drop_first() =~= bytes.drop_first());
        assert(styled_bytes(cur, items) =~= emit_style(cur, s) + bytes);
    }
}

} // verus!
