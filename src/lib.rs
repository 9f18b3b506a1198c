//! A small immutable builder for result lines of the form
//! `OUTPUT <fragment> <fragment> ...`: numbers stand between whitespace,
//! text stands between single colons, and fragments keep the order in which
//! they were appended.
use vstd::prelude::*;
use std::cmp::Ordering;
use vstd::string::to_string_from_display_ensures;

verus! {

/// Unicode `White_Space`: the characters that `str::trim_end` removes.
pub open spec fn is_white_space(c: char) -> bool {
    ('\u{9}' <= c && c <= '\u{d}') || c == ' ' || c == '\u{85}' || c == '\u{a0}' || c
        == '\u{1680}' || ('\u{2000}' <= c && c <= '\u{200a}') || c == '\u{2028}' || c
        == '\u{2029}' || c == '\u{202f}' || c == '\u{205f}' || c == '\u{3000}'
}

/// `s` with every trailing white-space character removed.
pub open spec fn trimmed_end(s: Seq<char>) -> Seq<char>
    decreases s.len(),
{
    if s.len() > 0 && is_white_space(s.last()) {
        trimmed_end(s.drop_last())
    } else {
        s
    }
}

/// The marker word that opens every rendered line.
pub open spec fn marker() -> Seq<char> {
    seq!['O', 'U', 'T', 'P', 'U', 'T']
}

/// The line rendered from accumulated content `c`.
pub open spec fn rendered(c: Seq<char>) -> Seq<char> {
    trimmed_end(marker() + seq![' '] + c)
}

/// The fragment appended for the text `s`: `:s: `.
pub open spec fn text_fragment(s: Seq<char>) -> Seq<char> {
    seq![':'] + s + seq![':', ' ']
}

/// The fragment appended for a number written as `t`: `t `.
pub open spec fn numeral_fragment(t: Seq<char>) -> Seq<char> {
    t + seq![' ']
}

/// Lexicographic comparison of two texts by code point; a proper prefix
/// comes first.
pub open spec fn lex_order(a: Seq<char>, b: Seq<char>) -> Ordering
    decreases a.len(),
{
    if a.len() == 0 {
        if b.len() == 0 {
            Ordering::Equal
        } else {
            Ordering::Less
        }
    } else if b.len() == 0 {
        Ordering::Greater
    } else if (a[0] as u32) < (b[0] as u32) {
        Ordering::Less
    } else if (a[0] as u32) > (b[0] as u32) {
        Ordering::Greater
    } else {
        lex_order(a.drop_first(), b.drop_first())
    }
}

/// Relies on `str::trim_end`: the same text with trailing Unicode white space removed.
#[verifier::external_body]
fn trim_trailing(s: &str) -> (r: String)
    ensures
        r@ == trimmed_end(s@),
{
    s.trim_end().to_string()
}

/// A result line under construction. Each append returns a new builder and
/// leaves the receiver as it was.
#[derive(Clone, Debug, Eq, Ord)]
pub struct HellmanOutput(String);

impl View for HellmanOutput {
    type V = Seq<char>;

    /// The fragments appended so far, as one text.
    closed spec fn view(&self) -> Seq<char> {
        self.0@
    }
}

impl PartialEq for HellmanOutput {
    /// Two builders are equal when they hold the same fragments.
    fn eq(&self, o: &HellmanOutput) -> (r: bool)
        ensures
            r == (self@ == o@),
    {
        self.0 == o.0
    }
}

impl vstd::std_specs::cmp::PartialEqSpecImpl for HellmanOutput {
    open spec fn obeys_eq_spec() -> bool {
        true
    }

    open spec fn eq_spec(&self, o: &HellmanOutput) -> bool {
        self@ == o@
    }
}

impl PartialOrd for HellmanOutput {
    /// Builders order as their contents do, character by character. Since
    /// every line renders as the marker, a space and the content, this is
    /// also the order of the rendered lines.
    fn partial_cmp(&self, o: &HellmanOutput) -> (r: Option<Ordering>)
        ensures
            r == Some(lex_order(self@, o@)),
    {
        let a = self.0.as_str();
        let b = o.0.as_str();
        let la = a.unicode_len();
        let lb = b.unicode_len();
        let mut i: usize = 0;
        assert(a@.skip(0) == a@);
        assert(b@.skip(0) == b@);
        while i < la && i < lb
            invariant
                i <= la,
                i <= lb,
                la == a@.len(),
                lb == b@.len(),
                a@ == self@,
                b@ == o@,
                lex_order(self@, o@) == lex_order(a@.skip(i as int), b@.skip(i as int)),
            decreases la - i,
        {
            let x = a.get_char(i);
            let y = b.get_char(i);
            assert(a@.skip(i as int)[0] == x);
            assert(b@.skip(i as int)[0] == y);
            if (x as u32) < (y as u32) {
                return Some(Ordering::Less);
            }
            if (x as u32) > (y as u32) {
                return Some(Ordering::Greater);
            }
            assert(a@.skip(i as int).drop_first() == a@.skip(i + 1));
            assert(b@.skip(i as int).drop_first() == b@.skip(i + 1));
            i = i + 1;
        }
        if i < lb {
            Some(Ordering::Less)
        } else if i < la {
            Some(Ordering::Greater)
        } else {
            Some(Ordering::Equal)
        }
    }
}

impl vstd::std_specs::cmp::PartialOrdSpecImpl for HellmanOutput {
    open spec fn obeys_partial_cmp_spec() -> bool {
        true
    }

    open spec fn partial_cmp_spec(&self, o: &HellmanOutput) -> Option<Ordering> {
        Some(lex_order(self@, o@))
    }
}

impl Default for HellmanOutput {
    fn default() -> (r: Self)
        ensures
            r@ == Seq::<char>::empty(),
    {
        HellmanOutput(String::new())
    }
}

impl std::str::FromStr for HellmanOutput {
    type Err = std::string::ParseError;

    /// Never fails: the text becomes the builder's one fragment.
    fn from_str(s: &str) -> (r: Result<HellmanOutput, std::string::ParseError>)
        ensures
            r matches Ok(b) && b@ == text_fragment(s@),
    {
        Ok(HellmanOutput::from_text(s))
    }
}

impl HellmanOutput {
    /// A builder holding the one text fragment `:s: `.
    pub fn from_text(s: &str) -> (r: Self)
        ensures
            r@ == text_fragment(s@),
    {
        let empty = HellmanOutput::default();
        empty.push_str(s)
    }

    /// Appends a number in its `Display` form, followed by one space.
    pub fn push_numeric<T: std::fmt::Display>(&self, num: T) -> (r: Self)
        ensures
            exists|t: String|
                to_string_from_display_ensures::<T>(&num, t) && r@ == self@ + numeral_fragment(
                    t@,
                ),
            lex_order(self@, r@) == Ordering::Less,
    {
        let text = num.to_string();
        self.push_numeral(text.as_str())
    }

    /// Appends a number already written out as `text`, followed by one space.
    pub fn push_numeral(&self, text: &str) -> (r: Self)
        ensures
            r@ == self@ + numeral_fragment(text@),
            lex_order(self@, r@) == Ordering::Less,
    {
        let mut content = self.0.clone();
        content.append(text);
        content.append(" ");
        proof {
            reveal_strlit(" ");
            lemma_extension_orders_after(self@, numeral_fragment(text@));
            assert(content@ == self@ + numeral_fragment(text@));
        }
        HellmanOutput(content)
    }

    /// Appends the text `s` between single colons, followed by one space.
    /// The text is taken as it is: colons and white space in it are kept.
    pub fn push_str(&self, s: &str) -> (r: Self)
        ensures
            r@ == self@ + text_fragment(s@),
            lex_order(self@, r@) == Ordering::Less,
    {
        let mut content = self.0.clone();
        content.append(":");
        content.append(s);
        content.append(": ");
        proof {
            reveal_strlit(":");
            reveal_strlit(": ");
            lemma_extension_orders_after(self@, text_fragment(s@));
            assert(content@ == self@ + text_fragment(s@));
        }
        HellmanOutput(content)
    }

    /// The finished line: the marker, a space, the content, with trailing
    /// white space removed. It depends on the content alone, and rendering
    /// leaves the builder as it was, so the same builder always renders to
    /// the same text.
    pub fn render(&self) -> (r: String)
        ensures
            r@ == rendered(self@),
    {
        let mut line = String::from_str("OUTPUT ");
        line.append(self.0.as_str());
        proof {
            reveal_strlit("OUTPUT ");
            assert(line@ == marker() + seq![' '] + self@);
        }
        trim_trailing(line.as_str())
    }
}

/// What is left after trimming is a prefix of `s`, everything cut off is
/// white space, and what is left does not end in white space.
proof fn lemma_trimmed_end_shape(s: Seq<char>)
    ensures
        trimmed_end(s).len() <= s.len(),
        trimmed_end(s) == s.subrange(0, trimmed_end(s).len() as int),
        forall|i: int| trimmed_end(s).len() <= i < s.len() ==> is_white_space(#[trigger] s[i]),
        trimmed_end(s).len() == 0 || !is_white_space(trimmed_end(s).last()),
    decreases s.len(),
{
    if s.len() > 0 && is_white_space(s.last()) {
        lemma_trimmed_end_shape(s.drop_last());
        assert(s.drop_last().subrange(0, trimmed_end(s).len() as int) == s.subrange(
            0,
            trimmed_end(s).len() as int,
        ));
        assert forall|i: int| trimmed_end(s).len() <= i < s.len() implies is_white_space(
            #[trigger] s[i],
        ) by {
            if i < s.len() - 1 {
                assert(s[i] == s.drop_last()[i]);
            }
        }
    } else {
        assert(s.subrange(0, s.len() as int) == s);
    }
}

/// Trimming `p + c` only reaches into `p` when `c` is all white space.
proof fn lemma_trimmed_end_concat(p: Seq<char>, c: Seq<char>)
    ensures
        trimmed_end(c).len() > 0 ==> trimmed_end(p + c) == p + trimmed_end(c),
        trimmed_end(c).len() == 0 ==> trimmed_end(p + c) == trimmed_end(p),
    decreases c.len(),
{
    if c.len() == 0 {
        assert(p + c == p);
    } else if is_white_space(c.last()) {
        assert((p + c).drop_last() == p + c.drop_last());
        lemma_trimmed_end_concat(p, c.drop_last());
    } else {
        assert((p + c).last() == c.last());
    }
}

/// The marker followed by a space trims down to the marker alone.
proof fn lemma_marker_space_trims()
    ensures
        trimmed_end(marker() + seq![' ']) == marker(),
{
    let m = marker();
    assert((m + seq![' ']).drop_last() == m);
    assert(m.last() == 'T');
    assert(trimmed_end(m) == m);
}

/// A text orders before any longer text that starts with it.
pub proof fn lemma_extension_orders_after(c: Seq<char>, f: Seq<char>)
    requires
        f.len() > 0,
    ensures
        lex_order(c, c + f) == Ordering::Less,
    decreases c.len(),
{
    if c.len() > 0 {
        assert((c + f).drop_first() == c.drop_first() + f);
        lemma_extension_orders_after(c.drop_first(), f);
    }
}

/// The rendered line is the marker, then either nothing (when the content
/// holds no more than white space) or one space and the content without its
/// trailing white space. The marker is put in front exactly once.
pub proof fn lemma_marker_leads(c: Seq<char>)
    ensures
        rendered(c).subrange(0, marker().len() as int) == marker(),
        trimmed_end(c).len() == 0 ==> rendered(c) == marker(),
        trimmed_end(c).len() > 0 ==> rendered(c) == marker() + seq![' '] + trimmed_end(c),
{
    lemma_trimmed_end_concat(marker() + seq![' '], c);
    lemma_marker_space_trims();
    assert(marker().subrange(0, marker().len() as int) == marker());
    assert((marker() + seq![' '] + trimmed_end(c)).subrange(0, marker().len() as int)
        == marker());
}

/// `w` stands in `s` starting at position `k`.
pub open spec fn occurs_at(s: Seq<char>, w: Seq<char>, k: int) -> bool {
    0 <= k && k + w.len() <= s.len() && s.subrange(k, k + w.len()) == w
}

/// When the content does not hold the marker word itself, the rendered line
/// holds it exactly once, at its start.
pub proof fn lemma_marker_once(c: Seq<char>)
    requires
        forall|k: int| !occurs_at(c, marker(), k),
    ensures
        forall|k: int| occurs_at(rendered(c), marker(), k) <==> k == 0,
{
    let m = marker();
    let r = rendered(c);
    let t = trimmed_end(c);
    lemma_marker_leads(c);
    lemma_trimmed_end_shape(c);
    assert(occurs_at(r, m, 0));
    assert forall|k: int| occurs_at(r, m, k) implies k == 0 by {
        if k != 0 {
            assert(t.len() > 0);
            assert(r == m + seq![' '] + t);
            if k <= 6 {
                assert(r.subrange(k, k + 6)[6 - k] == r[6]);
                assert(r[6] == ' ');
            } else {
                assert(r.subrange(k, k + 6) == c.subrange(k - 7, k - 1));
                assert(occurs_at(c, m, k - 7));
            }
        }
    }
}

/// The rendered line never ends in white space.
pub proof fn lemma_no_trailing_white_space(c: Seq<char>)
    ensures
        rendered(c).len() > 0,
        !is_white_space(rendered(c).last()),
{
    lemma_marker_leads(c);
    lemma_trimmed_end_shape(c);
    lemma_trimmed_end_shape(marker() + seq![' '] + c);
}

/// Whatever fragments were appended, the rendered line lists them in the
/// order of the calls: the content so far, then `f1`, then `f2` with its
/// trailing white space removed (for a text fragment that is the final space,
/// for a number that is the space after its digits).
pub proof fn lemma_fragments_in_call_order(c: Seq<char>, f1: Seq<char>, f2: Seq<char>)
    requires
        trimmed_end(f2).len() > 0,
    ensures
        rendered(c + f1 + f2) == marker() + seq![' '] + c + f1 + trimmed_end(f2),
{
    let head = marker() + seq![' '] + c + f1;
    lemma_trimmed_end_concat(head, f2);
    assert(marker() + seq![' '] + (c + f1 + f2) == head + f2);
}

/// Text pushed as `a` and then as `b` is rendered with `a` first and `b`
/// after it, each between colons, behind whatever the builder held before.
pub proof fn lemma_text_order_kept(c: Seq<char>, a: Seq<char>, b: Seq<char>)
    ensures
        rendered(c + text_fragment(a) + text_fragment(b)) == marker() + seq![' '] + c
            + text_fragment(a) + seq![':'] + b + seq![':'],
{
    let whole = c + text_fragment(a) + text_fragment(b);
    let kept = c + text_fragment(a) + seq![':'] + b + seq![':'];
    assert(whole.drop_last() == kept);
    assert(whole.last() == ' ');
    assert(kept.last() == ':');
    assert(trimmed_end(kept) == kept);
    assert(trimmed_end(whole) == kept);
    lemma_trimmed_end_concat(marker() + seq![' '], whole);
    assert(marker() + seq![' '] + whole == (marker() + seq![' ']) + whole);
    assert(marker() + seq![' '] + kept == (marker() + seq![' ']) + kept);
}

} // verus!
