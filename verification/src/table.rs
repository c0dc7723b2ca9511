//! Pieces of the table in which a prediction is shown on a terminal.

use vstd::prelude::*;
use vstd::string::StringExecFns;

verus! {

/// What opens a hyperlink on a terminal, before its address.
pub const LINK_OPEN: &'static str = "\x1b]8;;";

/// What ends an address, and what ends a hyperlink.
pub const LINK_END: &'static str = "\x1b\\";

/// Blanks, `count` of them.
pub open spec fn blanks(count: nat) -> Seq<char> {
    Seq::new(count, |i: int| ' ')
}

/// How many blanks fill `text` up to `width` bytes.
pub open spec fn padding(text: &str, width: usize) -> nat {
    if text.len() < width {
        (width - text.len()) as nat
    } else {
        0
    }
}

/// A text as a hyperlink to an address, filled up with blanks to `width`.
///
/// The width counts the bytes of the text only, not those of the address or
/// of the escape sequences, which a terminal does not show.
pub fn hyperlink(text: &str, url: &str, width: usize) -> (link: String)
    ensures
        link@ == LINK_OPEN@ + url@ + LINK_END@ + text@ + LINK_OPEN@ + LINK_END@ + blanks(
            padding(text, width),
        ),
{
    let mut link = String::from_str(LINK_OPEN);
    link.append(url);
    link.append(LINK_END);
    link.append(text);
    link.append(LINK_OPEN);
    link.append(LINK_END);
    let ghost linked = link@;
    let length = text.len();
    let fill = if length < width {
        width - length
    } else {
        0
    };
    let mut i: usize = 0;
    while i < fill
        invariant
            i <= fill,
            link@ == linked + blanks(i as nat),
        decreases fill - i,
    {
        proof {
            reveal_strlit(" ");
        }
        link.append(" ");
        assert(link@ =~= linked + blanks((i + 1) as nat));
        i += 1;
    }
    assert(linked + blanks(0) =~= linked);
    link
}

/// The width of a column of names under a heading: the length in bytes of
/// the longest name, or of the heading where no name is longer.
pub fn name_width(heading: &str, names: &[&str]) -> (width: usize)
    ensures
        heading.len() <= width,
        forall|i: int| 0 <= i < names@.len() ==> (#[trigger] names@[i]).len() <= width,
        width == heading.len() || exists|i: int|
            0 <= i < names@.len() && (#[trigger] names@[i]).len() == width,
{
    let mut width = heading.len();
    let mut i: usize = 0;
    while i < names.len()
        invariant
            i <= names@.len(),
            heading.len() <= width,
            forall|j: int| 0 <= j < i ==> (#[trigger] names@[j]).len() <= width,
            width == heading.len() || exists|j: int|
                0 <= j < i && (#[trigger] names@[j]).len() == width,
        decreases names@.len() - i,
    {
        let length = names[i].len();
        if length > width {
            width = length;
        }
        i += 1;
    }
    width
}

} // verus!
