//! Pre-rendered diagnostic values for error reporting.
//!
//! Values attached to an error are rendered to strings the moment they
//! are captured, so the error itself stays plain owned data.  The module
//! also measures how wide such a rendering is on a terminal, seeing ANSI
//! escape stripping and per-character column widths through two trusted
//! wrappers.

use ansi_parser::AnsiParser;
use vstd::prelude::*;

verus! {

/// The plain-text blocks an ANSI-coded string decomposes into, escape
/// sequences dropped.
pub uninterp spec fn ansi_blocks_of(s: Seq<char>) -> Seq<Seq<char>>;

/// The displayed column width of one character.
pub uninterp spec fn char_width_of(c: char) -> usize;

/// Relies on ansi_parser's `ansi_parse`: the plain-text blocks of `s`, in
/// order, with every ANSI escape sequence dropped.  The decomposition is a
/// function of the string alone.
#[verifier::external_body]
fn ansi_text_blocks(s: &str) -> (r: Vec<Vec<char>>)
    ensures
        r@.map_values(|b: Vec<char>| b@) == ansi_blocks_of(s@),
{
    s.ansi_parse()
        .filter_map(
            |output| match output {
                ansi_parser::Output::TextBlock(t) => Some(t.chars().collect()),
                _ => None,
            },
        )
        .collect()
}

/// Relies on unicode_width's `UnicodeWidthChar::width`: the displayed
/// column width of a character, with control characters counting zero.
/// The width is a function of the character alone.
#[verifier::external_body]
fn char_display_width(c: char) -> (w: usize)
    ensures
        w == char_width_of(c),
{
    unicode_width::UnicodeWidthChar::width(c).unwrap_or(0)
}

/// Saturating addition of a character width to a running width.
pub open spec fn width_add(a: int, w: int) -> int {
    if a + w > usize::MAX as int {
        usize::MAX as int
    } else {
        a + w
    }
}

/// Run the line-width scan over one block of characters: a newline resets
/// the current line's width, any other character adds its column width,
/// and the widest line seen so far is tracked.
pub open spec fn width_scan(chars: Seq<char>, curr: int, max: int) -> (int, int)
    decreases chars.len(),
{
    if chars.len() == 0 {
        (curr, max)
    } else if chars.first() == '\n' {
        width_scan(chars.drop_first(), 0, max)
    } else {
        let curr2 = width_add(curr, char_width_of(chars.first()) as int);
        width_scan(
            chars.drop_first(),
            curr2,
            if curr2 > max {
                curr2
            } else {
                max
            },
        )
    }
}

/// Run the line-width scan over a sequence of text blocks; lines continue
/// across block boundaries.
pub open spec fn blocks_scan(blocks: Seq<Seq<char>>, curr: int, max: int) -> (int, int)
    decreases blocks.len(),
{
    if blocks.len() == 0 {
        (curr, max)
    } else {
        let p = width_scan(blocks.first(), curr, max);
        blocks_scan(blocks.drop_first(), p.0, p.1)
    }
}

/// The display width of a rendered string: the widest of its lines, after
/// stripping ANSI escape sequences.
pub open spec fn display_width_of(s: Seq<char>) -> int {
    blocks_scan(ansi_blocks_of(s), 0, 0).1
}

/// Display width of a string as a terminal shows it: ANSI escape
/// sequences are stripped, each newline starts a new line, and the widest
/// line wins.
pub fn display_width(s: &str) -> (r: usize)
    ensures
        r as int == display_width_of(s@),
{
    let blocks = ansi_text_blocks(s);
    let ghost bs = blocks@.map_values(|b: Vec<char>| b@);
    let ghost total = blocks_scan(bs, 0, 0);
    let mut curr: usize = 0;
    let mut max: usize = 0;
    let mut i: usize = 0;
    proof {
        assert(bs.subrange(0, bs.len() as int) =~= bs);
    }
    while i < blocks.len()
        invariant
            i <= blocks@.len(),
            bs == blocks@.map_values(|b: Vec<char>| b@),
            blocks_scan(bs.subrange(i as int, bs.len() as int), curr as int, max as int) == total,
        decreases blocks@.len() - i,
    {
        let block = &blocks[i];
        let ghost cs = block@;
        let ghost entry_state = width_scan(cs, curr as int, max as int);
        let mut j: usize = 0;
        proof {
            assert(cs.subrange(0, cs.len() as int) =~= cs);
        }
        while j < block.len()
            invariant
                j <= cs.len(),
                block@ == cs,
                width_scan(cs.subrange(j as int, cs.len() as int), curr as int, max as int)
                    == entry_state,
            decreases cs.len() - j,
        {
            let ghost suffix = cs.subrange(j as int, cs.len() as int);
            proof {
                assert(suffix.first() == cs[j as int]);
                assert(suffix.drop_first() =~= cs.subrange(j as int + 1, cs.len() as int));
            }
            let c = block[j];
            if c == '\n' {
                curr = 0;
            } else {
                let w = char_display_width(c);
                curr = if curr > usize::MAX - w {
                    usize::MAX
                } else {
                    curr + w
                };
                if curr > max {
                    max = curr;
                }
            }
            j = j + 1;
        }
        proof {
            assert(cs.subrange(cs.len() as int, cs.len() as int) =~= Seq::<char>::empty());
            let bsuffix = bs.subrange(i as int, bs.len() as int);
            assert(bsuffix.first() == bs[i as int]);
            assert(bs[i as int] == cs);
            assert(bsuffix.drop_first() =~= bs.subrange(i as int + 1, bs.len() as int));
        }
        i = i + 1;
    }
    proof {
        assert(bs.subrange(bs.len() as int, bs.len() as int) =~= Seq::<Seq<char>>::empty());
    }
    max
}

/// Eager conversion of a value's debug rendering into strings: the
/// standard form and the alternate (multi-line) form.
#[derive(Clone, Debug)]
pub struct PreDebug {
    pub debug: String,
    pub debug_alt: String,
}

impl PreDebug {
    /// Capture both debug renderings of a value.
    ///
    /// Relies on the format macro with core::fmt::Debug: the rendering
    /// depends on the value's own Debug implementation, about which
    /// nothing is assumed.
    #[verifier::external_body]
    pub fn new<F: core::fmt::Debug>(f: F) -> PreDebug {
        PreDebug { debug: format!("{:?}", f), debug_alt: format!("{:#?}", f) }
    }
}

/// A captured (name, value) tuple of contextual error information.
#[derive(Clone, Debug)]
pub struct Field(pub String, pub PreDebug);

impl Field {
    /// Construct a new field from key and value.
    ///
    /// Relies on Into<String> for the key and the format macro with
    /// core::fmt::Debug for the value; nothing is assumed about either
    /// rendering.
    #[verifier::external_body]
    pub fn new<K: Into<String>, V: core::fmt::Debug>(key: K, val: V) -> Field {
        Field(
            key.into(),
            PreDebug { debug: format!("{:?}", val), debug_alt: format!("{:#?}", val) },
        )
    }
}

} // verus!
