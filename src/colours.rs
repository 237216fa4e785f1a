use vstd::prelude::*;

verus! {

/// Text colour: black or white, as ANSI's basic colours.
#[derive(Clone, Copy, Debug, PartialEq, Eq)]
pub enum Ink {
    Black,
    White,
}

/// How a run of text is shown on a terminal: an optional text colour, an
/// optional background from the 256-colour palette, bold, and underline.
#[derive(Clone, Copy, Debug, PartialEq, Eq)]
pub struct Highlight {
    pub foreground: Option<Ink>,
    pub background: Option<u8>,
    pub bold: bool,
    pub underline: bool,
}

/// A style with no property set.
pub open spec fn is_plain(h: Highlight) -> bool {
    h.foreground is None && h.background is None && !h.bold && !h.underline
}

impl Highlight {
    /// A style with no property set.
    pub fn plain() -> (r: Highlight)
        ensures
            is_plain(r),
    {
        Highlight { foreground: None, background: None, bold: false, underline: false }
    }

    /// This style, bold and underlined.
    pub fn emphasised(self) -> (r: Highlight)
        ensures
            r == (Highlight { bold: true, underline: true, ..self }),
    {
        Highlight { bold: true, underline: true, ..self }
    }
}

/// The order in which palette colours are handed out: first the system
/// colours, then the rest of the 256-colour palette, shuffled.
pub open spec fn colour_sequence() -> Seq<u8> {
    seq![
        1, 2, 3, 4, 5, 6, 9, 10, 11, 12, 13, 14, 15, 34, 185,
        147, 79, 214, 216, 152, 22, 63, 56, 192, 73, 110, 148, 136, 43, 109, 221,
        179, 111, 105, 115, 211, 20, 155, 166, 172, 222, 206, 85, 231, 124, 108, 118,
        65, 114, 83, 19, 78, 187, 98, 42, 157, 21, 32, 210, 48, 53, 229, 160,
        138, 142, 219, 220, 66, 145, 154, 35, 106, 133, 75, 191, 176, 169, 230, 125,
        149, 103, 96, 190, 74, 150, 228, 174, 204, 193, 92, 31, 208, 181, 94, 197,
        89, 223, 139, 27, 202, 141, 213, 45, 194, 218, 77, 68, 126, 189, 70, 23,
        121, 93, 183, 132, 52, 87, 44, 116, 49, 225, 119, 61, 76, 135, 161, 46,
        163, 104, 140, 67, 97, 81, 64, 50, 180, 217, 178, 165, 37, 215, 99, 186,
        171, 86, 57, 137, 41, 47, 153, 201, 173, 170, 29, 88, 128, 175, 182, 226,
        184, 102, 24, 195, 36, 168, 60, 30, 38, 26, 159, 58, 51, 199, 91, 54,
        71, 101, 143, 144, 203, 120, 39, 167, 59, 158, 62, 100, 130, 82, 112, 123,
        162, 205, 117, 207, 25, 209, 156, 84, 113, 224, 200, 33, 134, 198, 188, 164,
        212, 146, 122, 80, 177, 131, 227, 72, 16, 151, 196, 90, 17, 129, 28, 55,
        107, 95, 127, 18, 40, 69,
    ]
}

/// The style of the `i`-th colour handed out: a palette background with
/// black text on the system colours, and on the rest black or white text
/// chosen by the background's place in its row of the colour cube.
pub open spec fn colour_style(i: nat) -> Highlight {
    let c = colour_sequence()[(i % colour_sequence().len()) as int];
    let fg = if c < 16 || (c - 16) % 36 >= 18 { Ink::Black } else { Ink::White };
    Highlight { foreground: Some(fg), background: Some(c), bold: false, underline: false }
}

/// The style of the `i`-th colour handed out.
pub fn map_to_colour(i: usize) -> (r: Highlight)
    ensures
        r == colour_style(i as nat),
{
    let seq: Vec<u8> = vec![
        1, 2, 3, 4, 5, 6, 9, 10, 11, 12, 13, 14, 15, 34, 185,
        147, 79, 214, 216, 152, 22, 63, 56, 192, 73, 110, 148, 136, 43, 109, 221,
        179, 111, 105, 115, 211, 20, 155, 166, 172, 222, 206, 85, 231, 124, 108, 118,
        65, 114, 83, 19, 78, 187, 98, 42, 157, 21, 32, 210, 48, 53, 229, 160,
        138, 142, 219, 220, 66, 145, 154, 35, 106, 133, 75, 191, 176, 169, 230, 125,
        149, 103, 96, 190, 74, 150, 228, 174, 204, 193, 92, 31, 208, 181, 94, 197,
        89, 223, 139, 27, 202, 141, 213, 45, 194, 218, 77, 68, 126, 189, 70, 23,
        121, 93, 183, 132, 52, 87, 44, 116, 49, 225, 119, 61, 76, 135, 161, 46,
        163, 104, 140, 67, 97, 81, 64, 50, 180, 217, 178, 165, 37, 215, 99, 186,
        171, 86, 57, 137, 41, 47, 153, 201, 173, 170, 29, 88, 128, 175, 182, 226,
        184, 102, 24, 195, 36, 168, 60, 30, 38, 26, 159, 58, 51, 199, 91, 54,
        71, 101, 143, 144, 203, 120, 39, 167, 59, 158, 62, 100, 130, 82, 112, 123,
        162, 205, 117, 207, 25, 209, 156, 84, 113, 224, 200, 33, 134, 198, 188, 164,
        212, 146, 122, 80, 177, 131, 227, 72, 16, 151, 196, 90, 17, 129, 28, 55,
        107, 95, 127, 18, 40, 69,
    ];
    assert(seq@ =~= colour_sequence());
    let c = seq[i % seq.len()];
    if c < 16 {
        return Highlight { foreground: Some(Ink::Black), background: Some(c), bold: false, underline: false };
    }
    let row_idx = (c - 16) % 36;
    let fg = if row_idx < 18 {
        Ink::White
    } else {
        Ink::Black
    };
    Highlight { foreground: Some(fg), background: Some(c), bold: false, underline: false }
}

/// The text that ansi_term writes for `text` shown in `style`.
pub uninterp spec fn painted(style: Highlight, text: Seq<char>) -> Seq<char>;

/// Relies on ansi_term's `Style::paint` and its `Display` impl: the text
/// between the escape codes of the style; a style with no property set
/// writes no codes, so the text comes out unchanged.
#[verifier::external_body]
pub(crate) fn paint(style: Highlight, text: &str) -> (r: String)
    ensures
        r@ == painted(style, text@),
        is_plain(style) ==> r@ == text@,
{
    let foreground = match style.foreground {
        Some(Ink::Black) => Some(ansi_term::Colour::Black),
        Some(Ink::White) => Some(ansi_term::Colour::White),
        None => None,
    };
    let background = style.background.map(ansi_term::Colour::Fixed);
    let s = ansi_term::Style { foreground, background, is_bold: style.bold, is_underline: style.underline, ..ansi_term::Style::default() };
    format!("{}", s.paint(text))
}

/// Colours for source locations, handed out in order of first use: the
/// location ids, in that order; a location's colour index is its position.
pub struct Registry {
    order: Vec<usize>,
}

impl Registry {
    pub closed spec fn view(&self) -> Seq<usize> {
        self.order@
    }

    /// No location holds two colours.
    pub closed spec fn wf(&self) -> bool {
        self.order@.no_duplicates()
    }

    /// A registry that has handed out no colour.
    pub fn new() -> (r: Registry)
        ensures
            r@ == Seq::<usize>::empty(),
            r.wf(),
    {
        Registry { order: Vec::new() }
    }

    /// The colour index of location `id`, handing out the next one on its
    /// first use.
    pub fn colour_of(&mut self, id: usize) -> (r: usize)
        requires
            old(self).wf(),
        ensures
            final(self).wf(),
            final(self)@ == if old(self)@.contains(id) { old(self)@ } else { old(self)@.push(id) },
            r < final(self)@.len(),
            final(self)@[r as int] == id,
    {
        let mut j: usize = 0;
        while j < self.order.len()
            invariant
                j <= self.order@.len(),
                self.order@ == old(self).order@,
                self.order@.no_duplicates(),
                forall|k: int| 0 <= k < j ==> self.order@[k] != id,
            decreases self.order@.len() - j,
        {
            if self.order[j] == id {
                return j;
            }
            j += 1;
        }
        let n = self.order.len();
        let ghost before = self.order@;
        self.order.push(id);
        assert(self.order@.no_duplicates()) by {
            assert forall|a: int, b: int| 0 <= a < b < self.order@.len() implies self.order@[a] != self.order@[b] by {
                if b == n {
                    assert(self.order@[a] == before[a]);
                }
            }
        }
        assert(!before.contains(id));
        n
    }

    /// The style of location `id`.
    pub fn style_of(&mut self, id: usize) -> (r: Highlight)
        requires
            old(self).wf(),
        ensures
            final(self).wf(),
            final(self)@ == if old(self)@.contains(id) { old(self)@ } else { old(self)@.push(id) },
            r == colour_style(slot(final(self)@, id)),
    {
        let k = self.colour_of(id);
        proof {
            lemma_slot(self@, id, k as int);
        }
        map_to_colour(k)
    }
}

/// The position of `id` in `order`.
pub open spec fn slot(order: Seq<usize>, id: usize) -> nat {
    choose|k: nat| k < order.len() && order[k as int] == id
}

pub proof fn lemma_slot(order: Seq<usize>, id: usize, k: int)
    requires
        order.no_duplicates(),
        0 <= k < order.len(),
        order[k] == id,
    ensures
        slot(order, id) == k,
{
    let c = slot(order, id);
    assert(c < order.len() && order[c as int] == id) by {
        assert((k as nat) < order.len() && order[k] == id);
    }
}

} // verus!
