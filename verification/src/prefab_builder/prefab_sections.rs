use vstd::prelude::*;
use vstd::string::{StrSliceExecFns, StringExecFns};

verus! {

#[derive(PartialEq, Eq, Clone, Copy, Debug, Structural)]
pub enum HorizontalPlacement {
    Left,
    Center,
    Right,
}

#[derive(PartialEq, Eq, Clone, Copy, Debug, Structural)]
pub enum VerticalPlacement {
    Top,
    Center,
    Bottom,
}

/// A template that is laid over one part of a finished map.
#[derive(PartialEq, Eq, Clone, Copy, Debug)]
pub struct PrefabSection {
    pub template: &'static str,
    pub width: usize,
    pub height: usize,
    pub placement: (HorizontalPlacement, VerticalPlacement),
}

/// The width to which the lines of a section's template are padded.
pub const SECTION_LINE_WIDTH: usize = 15;

/// `n` spaces, none where `n` is not positive.
pub open spec fn spaces(n: int) -> Seq<char> {
    Seq::new(
        if n > 0 {
            n as nat
        } else {
            0
        },
        |i: int| ' ',
    )
}

/// What is left to write of `template` from its `i`-th character on, the
/// line being written having `col` characters so far: each line without its
/// line feed, filled up with spaces to `width` where it is shorter. A last
/// line that is empty counts for nothing.
pub open spec fn padded_from(template: Seq<char>, i: int, col: int, width: int) -> Seq<char>
    decreases template.len() - i,
{
    if i < 0 || i >= template.len() {
        if col > 0 {
            spaces(width - col)
        } else {
            Seq::empty()
        }
    } else if template[i] == '\n' {
        spaces(width - col) + padded_from(template, i + 1, 0, width)
    } else {
        seq![template[i]] + padded_from(template, i + 1, col + 1, width)
    }
}

/// The lines of `template`, each filled up with spaces to `width`, one
/// after the other.
pub open spec fn padded(template: Seq<char>, width: int) -> Seq<char> {
    padded_from(template, 0, 0, width)
}

/// Fills up the line being written, of `col` characters so far, to `width`.
fn fill_line(out: &mut String, col: usize, width: usize)
    ensures
        final(out)@ == old(out)@ + spaces(width - col),
{
    let mut at: usize = col;
    proof {
        reveal_strlit(" ");
        assert(out@ =~= old(out)@ + spaces(0));
    }
    while at < width
        invariant
            col <= at,
            at <= width || width < col,
            width < col ==> at == col,
            " "@ == seq![' '],
            out@ == old(out)@ + spaces(at - col),
        decreases width - at,
    {
        out.append(" ");
        proof {
            assert(spaces(at - col) + seq![' '] =~= spaces(at + 1 - col));
            assert(out@ =~= old(out)@ + spaces(at + 1 - col));
        }
        at += 1;
    }
    proof {
        assert(spaces(at - col) =~= spaces(width - col));
    }
}

/// Writes the lines of `template` one after the other, each without its
/// line feed and filled up with spaces to `width`.
pub fn pad_lines(template: &str, width: usize) -> (out: String)
    ensures
        out@ == padded(template@, width as int),
{
    let n = template.unicode_len();
    let mut out = String::new();
    let mut i: usize = 0;
    let mut col: usize = 0;
    let ghost s = template@;
    proof {
        assert(out@ + padded_from(s, 0, 0, width as int) =~= padded(s, width as int));
    }
    while i < n
        invariant
            s == template@,
            n == s.len(),
            i <= n,
            col <= i,
            out@ + padded_from(s, i as int, col as int, width as int) == padded(s, width as int),
        decreases n - i,
    {
        let c = template.get_char(i);
        let ghost before = out@;
        if c == '\n' {
            fill_line(&mut out, col, width);
            proof {
                assert(out@ + padded_from(s, i + 1, 0, width as int) =~= before + padded_from(
                    s,
                    i as int,
                    col as int,
                    width as int,
                ));
            }
            col = 0;
        } else {
            out.append(template.substring_char(i, i + 1));
            proof {
                assert(s.subrange(i as int, i + 1) =~= seq![s[i as int]]);
                assert(out@ + padded_from(s, i + 1, col + 1, width as int) =~= before
                    + padded_from(s, i as int, col as int, width as int));
            }
            col += 1;
        }
        i += 1;
    }
    if col > 0 {
        fill_line(&mut out, col, width);
    } else {
        proof {
            assert(out@ + Seq::<char>::empty() =~= out@);
        }
    }
    out
}

/// The template with each line padded to the width of a section line.
pub fn pad(template: &str) -> (out: String)
    ensures
        out@ == padded(template@, SECTION_LINE_WIDTH as int),
{
    pad_lines(template, SECTION_LINE_WIDTH)
}

/// The section's template as one string of full lines.
pub fn get_template_str(section: PrefabSection) -> (out: String)
    ensures
        out@ == padded(section.template@, SECTION_LINE_WIDTH as int),
{
    pad(section.template)
}

/// A fort along the right edge of the map.
pub fn underground_fort() -> (section: PrefabSection)
    ensures
        section.template@ == RIGHT_FORT@,
        section.width == 15,
        section.height == 43,
        section.placement == (HorizontalPlacement::Right, VerticalPlacement::Top),
{
    PrefabSection {
        template: RIGHT_FORT,
        width: 15,
        height: 43,
        placement: (HorizontalPlacement::Right, VerticalPlacement::Top),
    }
}

pub const RIGHT_FORT: &'static str = "
     #
  #######
  #     #
  #     #######
  #  g        #
  #     #######
  #     #
  ### ###
    # #
    # #
    # ##
    ^
    ^
    # ##
    # #
    # #
    # #
    # #
  ### ###
  #     #
  #     #
  #  g  #
  #     #
  #     #
  ### ###
    # #
    # #
    # #
    # ##
    ^
    ^
    # ##
    # #
    # #
    # #
  ### ###
  #     #
  #     #######
  #  g        #
  #     #######
  #     #
  #######
     #
";

} // verus!
