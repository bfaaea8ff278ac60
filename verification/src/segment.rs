//! Segments: the styled chunks that a prompt line is made of.

use crate::fill::{fill_text, fill_to_width};
use crate::style::{deref_style, paint, painted_style, AnsiString, AnsiStyle, Style};
use crate::width::{clamped, display_width, width_graphemes};
use vstd::prelude::*;
use vstd::string::{StrSliceExecFns, StringExecFns};

verus! {

/// The character that ends a line.
pub const LINE_TERMINATOR: char = '\n';

/// The mathematical content of a segment.
pub ghost enum SegmentView {
    /// Literal text.
    Text { style: Option<Style>, value: Seq<char> },
    /// A pattern to repeat.
    Fill { style: Option<Style>, value: Seq<char> },
    /// A directional glyph.
    Separator { style: Option<Style>, value: Seq<char>, left: bool },
    /// The end of a line.
    LineTerm,
}

impl SegmentView {
    /// The segment's own style; a line break has none.
    pub open spec fn style(self) -> Option<Style> {
        match self {
            SegmentView::Text { style, .. } => style,
            SegmentView::Fill { style, .. } => style,
            SegmentView::Separator { style, .. } => style,
            SegmentView::LineTerm => None,
        }
    }

    /// The segment's text: its literal or pattern, or the line terminator.
    pub open spec fn value(self) -> Seq<char> {
        match self {
            SegmentView::Text { value, .. } => value,
            SegmentView::Fill { value, .. } => value,
            SegmentView::Separator { value, .. } => value,
            SegmentView::LineTerm => seq![LINE_TERMINATOR],
        }
    }

    /// The segment with `style` in place of its own; a line break stays as
    /// it is.
    pub open spec fn with_style(self, style: Option<Style>) -> SegmentView {
        match self {
            SegmentView::Text { value, .. } => SegmentView::Text { style, value },
            SegmentView::Fill { value, .. } => SegmentView::Fill { style, value },
            SegmentView::Separator { value, left, .. } => SegmentView::Separator {
                style,
                value,
                left,
            },
            SegmentView::LineTerm => SegmentView::LineTerm,
        }
    }

    /// The segment after a fallback style was offered to it: taken where it
    /// had none, ignored where it had one.
    pub open spec fn backfilled(self, fallback: Option<Style>) -> SegmentView {
        if self.style() is None {
            self.with_style(fallback)
        } else {
            self
        }
    }

    /// The columns that the segment takes: the display width of its text,
    /// and none for a line break.
    pub open spec fn columns(self) -> usize {
        if self is LineTerm {
            0
        } else {
            clamped(display_width(self.value()))
        }
    }

    /// A text segment holds no line terminator.
    pub open spec fn wf(self) -> bool {
        self is Text ==> !self.value().contains(LINE_TERMINATOR)
    }
}

/// The pieces that the line terminators of `s` part it into, in order: one
/// more than there are terminators.
pub open spec fn lines(s: Seq<char>) -> Seq<Seq<char>>
    decreases s.len(),
{
    if s.len() == 0 {
        seq![Seq::empty()]
    } else if s.last() == LINE_TERMINATOR {
        lines(s.drop_last()).push(Seq::empty())
    } else {
        let before = lines(s.drop_last());
        before.drop_last().push(before.last().push(s.last()))
    }
}

/// One text segment per piece, with a line break between each two.
pub open spec fn interleaved(style: Option<Style>, pieces: Seq<Seq<char>>) -> Seq<SegmentView>
    decreases pieces.len(),
{
    if pieces.len() == 0 {
        Seq::empty()
    } else if pieces.len() == 1 {
        seq![SegmentView::Text { style, value: pieces[0] }]
    } else {
        interleaved(style, pieces.drop_last()).push(SegmentView::LineTerm).push(
            SegmentView::Text { style, value: pieces.last() },
        )
    }
}

/// The contents of a run of segments.
pub open spec fn views(segs: Seq<Segment>) -> Seq<SegmentView> {
    Seq::new(segs.len(), |i: int| segs[i]@)
}

/// Whether `c` is one of the two direction markers.
pub open spec fn is_marker(c: char) -> bool {
    c == 'l' || c == 'r'
}

/// `s` without the direction markers at its end.
pub open spec fn without_markers(s: Seq<char>) -> Seq<char>
    decreases s.len(),
{
    if s.len() > 0 && is_marker(s.last()) {
        without_markers(s.drop_last())
    } else {
        s
    }
}

/// Whether `s` asks for a separator that faces left: it ends in `l`.
pub open spec fn faces_left(s: Seq<char>) -> bool {
    s.len() > 0 && s.last() == 'l'
}

/// The style of a separator between two neighbours: its foreground is the
/// background of the segment after it, its background that of the segment
/// before it. With one neighbour only, that neighbour's background is the
/// foreground.
pub open spec fn derived_style(prev: Option<AnsiStyle>, next: Option<AnsiStyle>) -> AnsiStyle {
    match (prev, next) {
        (Some(p), Some(n)) => AnsiStyle {
            foreground: n.background,
            background: p.background,
            ..AnsiStyle::plain()
        },
        (Some(p), None) => AnsiStyle { foreground: p.background, ..AnsiStyle::plain() },
        (None, Some(n)) => AnsiStyle { foreground: n.background, ..AnsiStyle::plain() },
        (None, None) => AnsiStyle::plain(),
    }
}

/// The style that `style` resolves to with no segment before it.
pub open spec fn resolved_alone(style: Option<Style>) -> Option<AnsiStyle> {
    match style {
        Some(s) => Some(s.resolve(None)),
        None => None,
    }
}

/// A resolved style kept as a segment's own: it borrows nothing.
pub open spec fn kept(style: Option<AnsiStyle>) -> Option<Style> {
    match style {
        Some(s) => Some(Style { style: s, bg: None, fg: None }),
        None => None,
    }
}

/// A directional glyph between two segments.
#[derive(Clone, Debug)]
pub struct SeparatorSegment {
    style: Option<Style>,
    value: String,
    left: bool,
}

impl SeparatorSegment {
    /// The separator's own style.
    pub closed spec fn spec_style(&self) -> Option<Style> {
        self.style
    }

    /// The glyph.
    pub closed spec fn spec_value(&self) -> Seq<char> {
        self.value@
    }

    /// Whether the separator faces left.
    pub closed spec fn spec_left(&self) -> bool {
        self.left
    }

    /// The glyph in the separator's style, resolved against `prev`.
    pub fn ansi_string(&self, prev: Option<&AnsiStyle>) -> (r: AnsiString)
        ensures
            r.style == painted_style(self.spec_style(), deref_style(prev)),
            r.string@ == self.spec_value(),
    {
        paint(self.style, prev, self.value.clone())
    }

    /// Whether the separator faces left.
    pub fn is_left(&self) -> (r: bool)
        ensures
            r == self.spec_left(),
    {
        self.left
    }

    /// The style that bridges the two neighbours of a separator.
    pub fn derive_style(&self, prev: Option<AnsiStyle>, next: Option<AnsiStyle>) -> (r: AnsiStyle)
        ensures
            r == derived_style(prev, next),
            prev is Some && next is Some ==> r.foreground == next->0.background && r.background
                == prev->0.background,
            prev is None && next is None ==> r == AnsiStyle::plain(),
    {
        let mut resulting_style = AnsiStyle::new();
        match (prev, next) {
            (Some(p), Some(n)) => {
                resulting_style.foreground = n.background;
                resulting_style.background = p.background;
                resulting_style
            },
            (Some(p), None) => {
                resulting_style.foreground = p.background;
                resulting_style
            },
            (None, Some(n)) => {
                resulting_style.foreground = n.background;
                resulting_style
            },
            (None, None) => AnsiStyle::new(),
        }
    }

    /// Makes a resolved style the separator's own; it then resolves to that
    /// style after any segment. `None` takes the separator's style away.
    pub fn set_style(&mut self, style: Option<AnsiStyle>)
        ensures
            final(self).spec_style() == kept(style),
            final(self).spec_value() == old(self).spec_value(),
            final(self).spec_left() == old(self).spec_left(),
    {
        self.style = match style {
            Some(s) => Some(Style::fixed(s)),
            None => None,
        };
    }
}

/// Literal text in one style.
#[derive(Clone, Debug)]
pub struct TextSegment {
    style: Option<Style>,
    value: String,
}

impl TextSegment {
    /// The segment's own style.
    pub closed spec fn spec_style(&self) -> Option<Style> {
        self.style
    }

    /// The text.
    pub closed spec fn spec_value(&self) -> Seq<char> {
        self.value@
    }

    /// The text in the segment's style, resolved against `prev`.
    pub fn ansi_string(&self, prev: Option<&AnsiStyle>) -> (r: AnsiString)
        ensures
            r.style == painted_style(self.spec_style(), deref_style(prev)),
            r.string@ == self.spec_value(),
    {
        paint(self.style, prev, self.value.clone())
    }
}

/// A pattern that is repeated to fill a width.
#[derive(Clone, Debug)]
pub struct FillSegment {
    style: Option<Style>,
    value: String,
}

/// What a fill segment with `pattern` shows: the pattern itself where no
/// width is given, else the pattern repeated into that width.
pub open spec fn filled(pattern: Seq<char>, width: Option<usize>) -> Seq<char> {
    match width {
        Some(w) => fill_text(pattern, w as nat),
        None => pattern,
    }
}

impl FillSegment {
    /// The segment's own style.
    pub closed spec fn spec_style(&self) -> Option<Style> {
        self.style
    }

    /// The pattern.
    pub closed spec fn spec_value(&self) -> Seq<char> {
        self.value@
    }

    /// The pattern repeated into `width` columns, or as it is where no width
    /// is given, in the segment's style resolved against `prev`.
    pub fn ansi_string(&self, width: Option<usize>, prev: Option<&AnsiStyle>) -> (r: AnsiString)
        ensures
            r.style == painted_style(self.spec_style(), deref_style(prev)),
            r.string@ == filled(self.spec_value(), width),
            self.spec_value().len() == 0 ==> r.string@.len() == 0,
    {
        let s = match width {
            Some(w) => fill_to_width(self.value.as_str(), w),
            None => self.value.clone(),
        };
        paint(self.style, prev, s)
    }
}

/// A styled chunk of a prompt line.
#[derive(Clone, Debug)]
pub enum Segment {
    Text(TextSegment),
    Fill(FillSegment),
    Separator(SeparatorSegment),
    LineTerm,
}

impl View for Segment {
    type V = SegmentView;

    open spec fn view(&self) -> SegmentView {
        match self {
            Segment::Text(ts) => SegmentView::Text {
                style: ts.spec_style(),
                value: ts.spec_value(),
            },
            Segment::Fill(fs) => SegmentView::Fill {
                style: fs.spec_style(),
                value: fs.spec_value(),
            },
            Segment::Separator(ss) => SegmentView::Separator {
                style: ss.spec_style(),
                value: ss.spec_value(),
                left: ss.spec_left(),
            },
            Segment::LineTerm => SegmentView::LineTerm,
        }
    }
}

/// The trailing direction markers of `s` start at `k`.
spec fn markers_from(s: Seq<char>, k: int) -> bool {
    &&& 0 <= k <= s.len()
    &&& without_markers(s) == without_markers(s.take(k))
}

impl Segment {
    /// Adds the text segment for one more piece, after a line break where
    /// it is not the first.
    fn push_piece(
        segs: &mut Vec<Segment>,
        style: Option<Style>,
        piece: &str,
        Ghost(done): Ghost<Seq<Seq<char>>>,
    )
        requires
            views(old(segs)@) == interleaved(style, done),
            old(segs).len() == 0 <==> done.len() == 0,
        ensures
            views(final(segs)@) == interleaved(style, done.push(piece@)),
            final(segs).len() > 0,
    {
        if segs.len() != 0 {
            segs.push(Segment::LineTerm);
        }
        segs.push(Segment::Text(TextSegment { value: String::from_str(piece), style }));
        proof {
            let all = done.push(piece@);
            assert(all.drop_last() =~= done);
            assert(all.last() == piece@);
            assert(views(segs@) =~= interleaved(style, all));
        }
    }

    /// Splits `value` at its line terminators: a text segment for each
    /// piece, in `style`, and a line break between each two.
    pub fn from_text(style: Option<Style>, value: &str) -> (segs: Vec<Segment>)
        ensures
            views(segs@) == interleaved(style, lines(value@)),
            segs.len() == 2 * lines(value@).len() - 1,
            joined(views(segs@)) == value@,
            line_breaks(views(segs@)) == texts(views(segs@)) - 1,
            forall|i: int| 0 <= i < segs.len() ==> (#[trigger] segs[i])@.wf(),
    {
        let n: usize = value.unicode_len();
        let mut segs: Vec<Segment> = Vec::new();
        let mut start: usize = 0;
        let mut i: usize = 0;
        let ghost mut done: Seq<Seq<char>> = Seq::empty();
        proof {
            assert(value@.take(0) =~= Seq::<char>::empty());
            assert(value@.subrange(0, 0) =~= Seq::<char>::empty());
            assert(lines(value@.take(0)) =~= done.push(value@.subrange(0, 0)));
            assert(views(segs@) =~= interleaved(style, done));
        }
        while i < n
            invariant
                n == value@.len(),
                start <= i <= n,
                lines(value@.take(i as int)) == done.push(value@.subrange(start as int, i as int)),
                views(segs@) == interleaved(style, done),
                segs.len() == 0 <==> done.len() == 0,
            decreases n - i,
        {
            let c = value.get_char(i);
            proof {
                let upto = value@.take(i + 1);
                let piece = value@.subrange(start as int, i as int);
                assert(upto.drop_last() =~= value@.take(i as int));
                assert(upto.last() == c);
                assert(done.push(piece).drop_last() =~= done);
                assert(done.push(piece).last() == piece);
                if c == LINE_TERMINATOR {
                    assert(value@.subrange(i + 1, i + 1) =~= Seq::<char>::empty());
                } else {
                    assert(piece.push(c) =~= value@.subrange(start as int, i + 1));
                }
            }
            if c == LINE_TERMINATOR {
                let piece = value.substring_char(start, i);
                Self::push_piece(&mut segs, style, piece, Ghost(done));
                proof {
                    done = done.push(piece@);
                }
                start = i + 1;
            }
            i += 1;
        }
        let piece = value.substring_char(start, n);
        Self::push_piece(&mut segs, style, piece, Ghost(done));
        proof {
            assert(value@.take(n as int) =~= value@);
            lemma_interleaved_shape(style, lines(value@));
            lemma_lines_hold_no_terminator(value@);
            lemma_split_text_rejoins(style, value@);
            lemma_split_text_counts(style, value@);
            assert(views(segs@).len() == segs.len());
            assert forall|i: int| 0 <= i < segs.len() implies (#[trigger] segs[i])@.wf() by {
                assert(views(segs@)[i] == segs[i]@);
                let j = i / 2;
                if i % 2 == 0 {
                    assert(interleaved(style, lines(value@))[2 * j] == (SegmentView::Text {
                        style,
                        value: lines(value@)[j],
                    }));
                } else {
                    assert(interleaved(style, lines(value@))[2 * j + 1] == SegmentView::LineTerm);
                }
            }
        }
        segs
    }

    /// A fill segment with `value` as its pattern.
    pub fn fill(style: Option<Style>, value: &str) -> (r: Segment)
        ensures
            r@ == (SegmentView::Fill { style, value: value@ }),
    {
        Segment::Fill(FillSegment { style, value: String::from_str(value) })
    }

    /// A separator from a glyph and a direction marker: it faces left where
    /// `value` ends in `l`, and its glyph is `value` without the `l` and `r`
    /// at its end.
    pub fn separator(style: Option<Style>, value: &str) -> (r: Segment)
        ensures
            r@ == (SegmentView::Separator {
                style,
                value: without_markers(value@),
                left: faces_left(value@),
            }),
    {
        let n: usize = value.unicode_len();
        let left = n > 0 && value.get_char(n - 1) == 'l';
        let mut k: usize = n;
        proof {
            assert(value@.take(n as int) =~= value@);
        }
        while k > 0 && is_marker_char(value.get_char(k - 1))
            invariant
                n == value@.len(),
                markers_from(value@, k as int),
            decreases k,
        {
            proof {
                assert(value@.take(k as int).drop_last() =~= value@.take(k - 1));
            }
            k -= 1;
        }
        let symbol = value.substring_char(0, k);
        proof {
            assert(value@.take(k as int) =~= value@.subrange(0, k as int));
        }
        Segment::Separator(SeparatorSegment { style, value: String::from_str(symbol), left })
    }

    /// The segment's own style, resolved with no segment before it.
    pub fn style(&self) -> (r: Option<AnsiStyle>)
        ensures
            r == resolved_alone(self@.style()),
    {
        match self {
            Segment::Fill(fs) => Self::resolve_alone(fs.style),
            Segment::Text(ts) => Self::resolve_alone(ts.style),
            Segment::Separator(ss) => Self::resolve_alone(ss.style),
            Segment::LineTerm => None,
        }
    }

    fn resolve_alone(style: Option<Style>) -> (r: Option<AnsiStyle>)
        ensures
            r == resolved_alone(style),
    {
        match style {
            Some(cs) => Some(cs.to_ansi_style(None)),
            None => None,
        }
    }

    /// Gives the segment `style` where it has none of its own: a segment
    /// with a style keeps it, and a line break never has one.
    pub fn set_style_if_empty(&mut self, style: Option<Style>)
        ensures
            final(self)@ == old(self)@.backfilled(style),
            final(self)@.wf() == old(self)@.wf(),
    {
        match self {
            Segment::Fill(fs) => {
                if fs.style.is_none() {
                    fs.style = style;
                }
            },
            Segment::Text(ts) => {
                if ts.style.is_none() {
                    ts.style = style;
                }
            },
            Segment::Separator(ss) => {
                if ss.style.is_none() {
                    ss.style = style;
                }
            },
            Segment::LineTerm => {},
        }
    }

    /// The segment's text: its literal or pattern, or the line terminator.
    pub fn value(&self) -> (r: &str)
        ensures
            r@ == self@.value(),
    {
        match self {
            Segment::Fill(fs) => fs.value.as_str(),
            Segment::Text(ts) => ts.value.as_str(),
            Segment::Separator(ss) => ss.value.as_str(),
            Segment::LineTerm => {
                proof {
                    reveal_strlit("\n");
                    assert("\n"@ =~= seq![LINE_TERMINATOR]);
                }
                "\n"
            },
        }
    }

    /// The segment's text in its style, resolved against `prev`. A fill
    /// shows its pattern once; a line break is the plain terminator.
    pub fn ansi_string(&self, prev: Option<&AnsiStyle>) -> (r: AnsiString)
        ensures
            r.style == painted_style(self@.style(), deref_style(prev)),
            r.string@ == self@.value(),
    {
        match self {
            Segment::Fill(fs) => fs.ansi_string(None, prev),
            Segment::Text(ts) => ts.ansi_string(prev),
            Segment::Separator(ss) => ss.ansi_string(prev),
            Segment::LineTerm => {
                proof {
                    reveal_strlit("\n");
                    assert("\n"@ =~= seq![LINE_TERMINATOR]);
                }
                paint(None, prev, String::from_str("\n"))
            },
        }
    }

    /// The columns that the segment's text takes; a line break takes none.
    pub fn width_graphemes(&self) -> (r: usize)
        ensures
            r == self@.columns(),
    {
        match self {
            Segment::Fill(fs) => width_graphemes(fs.value.as_str()),
            Segment::Text(ts) => width_graphemes(ts.value.as_str()),
            Segment::Separator(ss) => width_graphemes(ss.value.as_str()),
            Segment::LineTerm => 0,
        }
    }

    /// Whether the segment is a line break.
    pub fn is_linebreak(&self) -> (r: bool)
        ensures
            r == (self@ is LineTerm),
    {
        matches!(self, Segment::LineTerm)
    }
}

/// Whether `c` is one of the two direction markers.
fn is_marker_char(c: char) -> (r: bool)
    ensures
        r == is_marker(c),
{
    c == 'l' || c == 'r'
}

/// The segments for `n` pieces are `2 n - 1`, where there is a piece.
pub proof fn lemma_interleaved_shape(style: Option<Style>, pieces: Seq<Seq<char>>)
    ensures
        pieces.len() > 0 ==> interleaved(style, pieces).len() == 2 * pieces.len() - 1,
        pieces.len() == 0 ==> interleaved(style, pieces).len() == 0,
        forall|j: int|
            0 <= j < pieces.len() ==> #[trigger] interleaved(style, pieces)[2 * j] == (
            SegmentView::Text { style, value: pieces[j] }),
        forall|j: int|
            0 <= j < pieces.len() - 1 ==> #[trigger] interleaved(style, pieces)[2 * j + 1]
                == SegmentView::LineTerm,
    decreases pieces.len(),
{
    if pieces.len() > 1 {
        lemma_interleaved_shape(style, pieces.drop_last());
        let shorter = interleaved(style, pieces.drop_last());
        assert forall|j: int| 0 <= j < pieces.len() implies #[trigger] interleaved(
            style,
            pieces,
        )[2 * j] == (SegmentView::Text { style, value: pieces[j] }) by {
            if j < pieces.len() - 1 {
                assert(shorter[2 * j] == (SegmentView::Text {
                    style,
                    value: pieces.drop_last()[j],
                }));
            }
        }
        assert forall|j: int| 0 <= j < pieces.len() - 1 implies #[trigger] interleaved(
            style,
            pieces,
        )[2 * j + 1] == SegmentView::LineTerm by {
            if j < pieces.len() - 2 {
                assert(shorter[2 * j + 1] == SegmentView::LineTerm);
            }
        }
    }
}

/// There is always a piece, and no piece holds a line terminator.
pub proof fn lemma_lines_hold_no_terminator(s: Seq<char>)
    ensures
        lines(s).len() >= 1,
        forall|j: int| 0 <= j < lines(s).len() ==> !(#[trigger] lines(s)[j]).contains(LINE_TERMINATOR),
    decreases s.len(),
{
    if s.len() > 0 {
        lemma_lines_hold_no_terminator(s.drop_last());
        let before = lines(s.drop_last());
        if s.last() != LINE_TERMINATOR {
            let grown = before.last().push(s.last());
            assert forall|j: int| 0 <= j < lines(s).len() implies !(#[trigger] lines(s)[j]).contains(
                LINE_TERMINATOR,
            ) by {
                if j < before.len() - 1 {
                    assert(lines(s)[j] == before[j]);
                } else {
                    assert(lines(s)[j] == grown);
                    if grown.contains(LINE_TERMINATOR) {
                        let at = choose|at: int| 0 <= at < grown.len() && grown[at] == LINE_TERMINATOR;
                        assert(before.last()[at] == LINE_TERMINATOR);
                    }
                }
            }
        } else {
            assert forall|j: int| 0 <= j < lines(s).len() implies !(#[trigger] lines(s)[j]).contains(
                LINE_TERMINATOR,
            ) by {
                if j < before.len() {
                    assert(lines(s)[j] == before[j]);
                }
            }
        }
    }
}

/// The texts of a run of segments, joined in order.
pub open spec fn joined(vs: Seq<SegmentView>) -> Seq<char>
    decreases vs.len(),
{
    if vs.len() == 0 {
        Seq::empty()
    } else {
        joined(vs.drop_last()) + vs.last().value()
    }
}

/// How many of the segments are line breaks.
pub open spec fn line_breaks(vs: Seq<SegmentView>) -> nat
    decreases vs.len(),
{
    if vs.len() == 0 {
        0
    } else if vs.last() is LineTerm {
        line_breaks(vs.drop_last()) + 1
    } else {
        line_breaks(vs.drop_last())
    }
}

/// How many of the segments are text segments.
pub open spec fn texts(vs: Seq<SegmentView>) -> nat
    decreases vs.len(),
{
    if vs.len() == 0 {
        0
    } else if vs.last() is Text {
        texts(vs.drop_last()) + 1
    } else {
        texts(vs.drop_last())
    }
}

/// One character more at the end of the last piece is one character more
/// at the end of the joined segments.
proof fn lemma_joined_grows(style: Option<Style>, pieces: Seq<Seq<char>>, c: char)
    requires
        pieces.len() >= 1,
    ensures
        joined(interleaved(style, pieces.drop_last().push(pieces.last().push(c)))) == joined(
            interleaved(style, pieces),
        ).push(c),
{
    let head = pieces.drop_last();
    let tail = pieces.last();
    let grown = head.push(tail.push(c));
    assert(grown.drop_last() =~= head);
    assert(grown.last() == tail.push(c));
    let was = interleaved(style, pieces);
    let now = interleaved(style, grown);
    if pieces.len() == 1 {
        assert(was.drop_last() =~= Seq::<SegmentView>::empty());
        assert(now.drop_last() =~= Seq::<SegmentView>::empty());
        assert(joined(now) =~= joined(was).push(c));
    } else {
        let upto = interleaved(style, head).push(SegmentView::LineTerm);
        assert(was.drop_last() =~= upto);
        assert(now.drop_last() =~= upto);
        assert(joined(upto) + tail.push(c) =~= (joined(upto) + tail).push(c));
    }
}

/// The segments that a text is split into, joined again, are the text: each
/// text segment gives its piece and each line break the terminator.
pub proof fn lemma_split_text_rejoins(style: Option<Style>, s: Seq<char>)
    ensures
        joined(interleaved(style, lines(s))) == s,
    decreases s.len(),
{
    lemma_lines_hold_no_terminator(s);
    if s.len() == 0 {
        let only = interleaved(style, lines(s));
        assert(lines(s).len() == 1);
        assert(lines(s)[0] =~= Seq::<char>::empty());
        assert(only.len() == 1);
        assert(only.drop_last() =~= Seq::<SegmentView>::empty());
        assert(joined(only.drop_last()) =~= Seq::<char>::empty());
        assert(only.last().value() =~= Seq::<char>::empty());
        assert(joined(only) =~= s);
    } else {
        let before = lines(s.drop_last());
        lemma_split_text_rejoins(style, s.drop_last());
        lemma_lines_hold_no_terminator(s.drop_last());
        if s.last() == LINE_TERMINATOR {
            let all = before.push(Seq::empty());
            assert(all.drop_last() =~= before);
            let now = interleaved(style, all);
            let upto = interleaved(style, before).push(SegmentView::LineTerm);
            assert(all.last() =~= Seq::<char>::empty());
            assert(now.drop_last() =~= upto);
            assert(now.last().value() =~= Seq::<char>::empty());
            assert(upto.drop_last() =~= interleaved(style, before));
            assert(upto.last().value() =~= seq![LINE_TERMINATOR]);
            assert(joined(upto) =~= s.drop_last() + seq![LINE_TERMINATOR]);
            assert(joined(now) =~= s.drop_last().push(LINE_TERMINATOR));
            assert(s.drop_last().push(s.last()) =~= s);
        } else {
            lemma_joined_grows(style, before, s.last());
            assert(s.drop_last().push(s.last()) =~= s);
        }
    }
}

/// Among the segments for some pieces, the text segments are as many as
/// the pieces and the line breaks one fewer.
pub proof fn lemma_interleaved_counts(style: Option<Style>, pieces: Seq<Seq<char>>)
    requires
        pieces.len() >= 1,
    ensures
        texts(interleaved(style, pieces)) == pieces.len(),
        line_breaks(interleaved(style, pieces)) == pieces.len() - 1,
    decreases pieces.len(),
{
    let all = interleaved(style, pieces);
    if pieces.len() == 1 {
        assert(all.last() is Text);
        assert(all.drop_last() =~= Seq::<SegmentView>::empty());
        assert(texts(all.drop_last()) == 0);
        assert(line_breaks(all.drop_last()) == 0);
    } else {
        let shorter = interleaved(style, pieces.drop_last());
        lemma_interleaved_counts(style, pieces.drop_last());
        let upto = shorter.push(SegmentView::LineTerm);
        assert(all.last() is Text);
        assert(all.drop_last() =~= upto);
        assert(upto.last() is LineTerm);
        assert(upto.drop_last() =~= shorter);
        assert(texts(upto) == texts(shorter));
        assert(line_breaks(upto) == line_breaks(shorter) + 1);
    }
}

/// The segments that a text is split into hold one line break fewer than
/// text segments, and at least one text segment.
pub proof fn lemma_split_text_counts(style: Option<Style>, s: Seq<char>)
    ensures
        texts(interleaved(style, lines(s))) >= 1,
        line_breaks(interleaved(style, lines(s))) == texts(interleaved(style, lines(s))) - 1,
{
    lemma_lines_hold_no_terminator(s);
    lemma_interleaved_counts(style, lines(s));
}

/// A fallback style is taken once: after a segment was offered `first`,
/// offering it `second` changes nothing. This holds wherever the first
/// offer left the segment with a style, for a line break, and where the
/// second offer is empty.
pub proof fn lemma_backfill_takes_first(
    v: SegmentView,
    first: Option<Style>,
    second: Option<Style>,
)
    requires
        first is Some || v.style() is Some || v is LineTerm || second is None,
    ensures
        v.backfilled(first).backfilled(second) == v.backfilled(first),
{
}

} // verus!
