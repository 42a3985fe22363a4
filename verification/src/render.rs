//! Streaming renderer for a stored paste: scans an HTML template once for
//! the two-character marker `\!`, substitutes the next unconsumed argument,
//! HTML-escaped, at each occurrence, and hands the result out as a finite
//! sequence of chunks. Literal template text passes through unescaped.
use vstd::prelude::*;

verus! {

/// How one character is written in escaped HTML, after v_htmlescape's table:
/// the six characters below become entities, everything else stands for
/// itself.
pub open spec fn html_escape_char(c: char) -> Seq<char> {
    if c == '<' {
        "&lt;"@
    } else if c == '>' {
        "&gt;"@
    } else if c == '&' {
        "&amp;"@
    } else if c == '"' {
        "&quot;"@
    } else if c == '\'' {
        "&#x27;"@
    } else if c == '/' {
        "&#x2f;"@
    } else {
        seq![c]
    }
}

/// A string with every character escaped for HTML.
pub open spec fn html_escape(s: Seq<char>) -> Seq<char>
    decreases s.len(),
{
    if s.len() == 0 {
        Seq::empty()
    } else {
        html_escape_char(s[0]) + html_escape(s.drop_first())
    }
}

/// Relies on v_htmlescape::escape_string: it rewrites exactly the six
/// characters of its documented table (`<` `>` `&` `"` `'` `/`) into their
/// entities and forwards every other byte verbatim, which at character level
/// is `html_escape`.
#[verifier::external_body]
fn escape_html(s: &str) -> (r: String)
    ensures
        r@ == html_escape(s@),
{
    let mut out = String::new();
    v_htmlescape::escape_string(s, &mut out);
    out
}

/// Whether the substitution marker stands at position `i` of the template.
pub open spec fn marker_at(t: Seq<char>, i: int) -> bool {
    0 <= i && i + 1 < t.len() && t[i] == '\\' && t[i + 1] == '!'
}

/// The position of the first marker at or after `from`; the template length
/// when there is none.
pub open spec fn first_marker_from(t: Seq<char>, from: int) -> int
    decreases t.len() - from,
    when 0 <= from
{
    if from + 1 >= t.len() {
        t.len() as int
    } else if t[from] == '\\' && t[from + 1] == '!' {
        from
    } else {
        first_marker_from(t, from + 1)
    }
}

pub proof fn lemma_first_marker(t: Seq<char>, from: int)
    requires
        0 <= from <= t.len(),
    ensures
        from <= first_marker_from(t, from) <= t.len(),
        first_marker_from(t, from) < t.len() ==> marker_at(t, first_marker_from(t, from)),
    decreases t.len() - from,
{
    if from + 1 >= t.len() {
    } else if t[from] == '\\' && t[from + 1] == '!' {
    } else {
        lemma_first_marker(t, from + 1);
    }
}

/// How many markers the template holds at or after `from`.
pub open spec fn marker_count_from(t: Seq<char>, from: int) -> nat
    decreases t.len() - from,
    when 0 <= from
{
    let m = first_marker_from(t, from);
    if m < from || m + 2 > t.len() {
        0
    } else {
        1 + marker_count_from(t, m + 2)
    }
}

/// How many markers the template holds.
pub open spec fn marker_count(t: Seq<char>) -> nat {
    marker_count_from(t, 0)
}

/// One piece of the split template: literal text, or an argument to be
/// escaped.
pub enum Piece {
    Template(String),
    Arg(String),
}

/// Mathematical model of a piece.
pub enum PieceV {
    Template(Seq<char>),
    Arg(Seq<char>),
}

impl View for Piece {
    type V = PieceV;

    open spec fn view(&self) -> PieceV {
        match self {
            Piece::Template(s) => PieceV::Template(s@),
            Piece::Arg(s) => PieceV::Arg(s@),
        }
    }
}

impl DeepView for Piece {
    type V = PieceV;

    open spec fn deep_view(&self) -> PieceV {
        self.view()
    }
}

/// The pieces of the template tail starting at `from`, consuming arguments
/// at each marker.
pub open spec fn split_from(t: Seq<char>, from: int, args: Seq<Seq<char>>) -> Seq<PieceV>
    decreases t.len() - from,
    when 0 <= from <= t.len()
{
    let m = first_marker_from(t, from);
    if m < from || m + 2 > t.len() {
        seq![PieceV::Template(t.subrange(from, t.len() as int))]
    } else {
        seq![PieceV::Template(t.subrange(from, m)), PieceV::Arg(args[0])] + split_from(
            t,
            m + 2,
            args.drop_first(),
        )
    }
}

/// The pieces of a whole template.
pub open spec fn split_pieces(t: Seq<char>, args: Seq<Seq<char>>) -> Seq<PieceV> {
    split_from(t, 0, args)
}

/// What one piece contributes to the output: template text verbatim, an
/// argument escaped.
pub open spec fn chunk_of(p: PieceV) -> Seq<char> {
    match p {
        PieceV::Template(s) => s,
        PieceV::Arg(a) => html_escape(a),
    }
}

/// Mathematical model of a renderer: the pieces and how many chunks have
/// been consumed.
pub struct PasteRendererV {
    pub pieces: Seq<PieceV>,
    pub idx: int,
}

/// The renderer: a finite, non-restartable sequence of output chunks,
/// driven by one consumer to completion.
pub struct PasteRenderer {
    pieces: Vec<Piece>,
    idx: usize,
}

impl View for PasteRenderer {
    type V = PasteRendererV;

    closed spec fn view(&self) -> PasteRendererV {
        PasteRendererV { pieces: self.pieces.deep_view(), idx: self.idx as int }
    }
}

/// The position of the first marker at or after `start`, or the template
/// length when there is none.
fn find_marker(template: &str, n: usize, start: usize) -> (r: usize)
    requires
        n == template@.len(),
        start <= n,
    ensures
        r as int == first_marker_from(template@, start as int),
        r <= n,
{
    let ghost tv = template@;
    let mut j: usize = start;
    while n - j > 1
        invariant
            start <= j <= n,
            n == tv.len(),
            tv == template@,
            first_marker_from(tv, start as int) == first_marker_from(tv, j as int),
        decreases n - j,
    {
        if template.get_char(j) == '\\' && template.get_char(j + 1) == '!' {
            return j;
        }
        j = j + 1;
    }
    proof {
        lemma_first_marker(tv, j as int);
    }
    n
}

impl PasteRenderer {
    /// Splits the template once. Needs one argument per marker; extra
    /// arguments stay unconsumed.
    pub fn new(args: &Vec<String>, template: &str) -> (r: PasteRenderer)
        requires
            marker_count(template@) <= args.deep_view().len(),
        ensures
            r@.pieces == split_pieces(template@, args.deep_view()),
            r@.idx == 0,
    {
        let ghost tv = template@;
        let ghost av = args.deep_view();
        let n = template.unicode_len();
        let argc = args.len();
        let mut pieces: Vec<Piece> = Vec::new();
        let mut start: usize = 0;
        let mut ai: usize = 0;
        proof {
            assert(av.subrange(0, av.len() as int) =~= av);
        }
        loop
            invariant_except_break
                start <= n,
                ai <= argc,
                argc == av.len(),
                n == tv.len(),
                tv == template@,
                av == args.deep_view(),
                marker_count_from(tv, start as int) <= av.len() - ai,
                split_pieces(tv, av) =~= pieces.deep_view() + split_from(
                    tv,
                    start as int,
                    av.subrange(ai as int, av.len() as int),
                ),
            ensures
                pieces.deep_view() == split_pieces(tv, av),
            decreases n - start,
        {
            let ghost p0 = pieces.deep_view();
            let ghost rest_args = av.subrange(ai as int, av.len() as int);
            let m = find_marker(template, n, start);
            proof {
                lemma_first_marker(tv, start as int);
            }
            if m >= n {
                let tail = template.substring_char(start, n).to_owned();
                pieces.push(Piece::Template(tail));
                proof {
                    assert(split_from(tv, start as int, rest_args) =~= seq![
                        PieceV::Template(tv.subrange(start as int, n as int)),
                    ]);
                    assert(pieces.deep_view() =~= p0 + split_from(tv, start as int, rest_args));
                    assert(pieces.deep_view() =~= split_pieces(tv, av));
                }
                break ;
            }
            proof {
                assert(marker_at(tv, m as int));
                assert(m as int + 2 <= n as int);
                assert(marker_count_from(tv, start as int) == 1 + marker_count_from(
                    tv,
                    m as int + 2,
                ));
                assert(ai < av.len());
                assert(ai < argc);
            }
            let head = template.substring_char(start, m).to_owned();
            pieces.push(Piece::Template(head));
            pieces.push(Piece::Arg(args[ai].clone()));
            proof {
                assert(rest_args[0] == av[ai as int]);
                assert(rest_args.drop_first() =~= av.subrange(ai as int + 1, av.len() as int));
                assert(split_from(tv, start as int, rest_args) =~= seq![
                    PieceV::Template(tv.subrange(start as int, m as int)),
                    PieceV::Arg(av[ai as int]),
                ] + split_from(tv, m as int + 2, av.subrange(ai as int + 1, av.len() as int)));
                assert(pieces.deep_view() =~= p0 + seq![
                    PieceV::Template(tv.subrange(start as int, m as int)),
                    PieceV::Arg(av[ai as int]),
                ]);
                assert(split_pieces(tv, av) =~= pieces.deep_view() + split_from(
                    tv,
                    m as int + 2,
                    av.subrange(ai as int + 1, av.len() as int),
                ));
            }
            start = m + 2;
            ai = ai + 1;
        }
        PasteRenderer { pieces, idx: 0 }
    }

    /// The next output chunk: template text verbatim, or the next argument
    /// escaped. `None` once the sequence is exhausted.
    pub fn next_chunk(&mut self) -> (r: Option<String>)
        ensures
            final(self)@.pieces == old(self)@.pieces,
            old(self)@.idx >= old(self)@.pieces.len() ==> r is None && final(self)@.idx == old(
                self,
            )@.idx,
            old(self)@.idx < old(self)@.pieces.len() ==> final(self)@.idx == old(self)@.idx + 1
                && (match r {
                Some(s) => s@ == chunk_of(old(self)@.pieces[old(self)@.idx]),
                None => false,
            }),
    {
        if self.idx < self.pieces.len() {
            let i = self.idx;
            self.idx = i + 1;
            let chunk = match &self.pieces[i] {
                Piece::Template(s) => s.clone(),
                Piece::Arg(a) => escape_html(a.as_str()),
            };
            Some(chunk)
        } else {
            None
        }
    }
}

} // verus!
