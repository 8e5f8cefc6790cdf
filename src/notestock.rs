use vstd::prelude::*;

verus! {

/// Marker of quiz posts that are dropped.
pub const QUIZ_MARKER: &'static str = "#クイズMondo";

/// Marker of puzzle-game posts that are dropped.
pub const PUZZLE_MARKER: &'static str = "https://puzzlega.me/";

/// Anchor elements, removed before the markup is stripped.
pub const ANCHOR_PATTERN: &'static str = "<a[ >].*?</a>";

/// Preformatted blocks, removed before the markup is stripped.
pub const PRE_PATTERN: &'static str = "(?s)<pre[ >].*?</pre>";

/// Inline code, removed before the markup is stripped.
pub const CODE_PATTERN: &'static str = "<code[ >].*?</code>";

/// Quotations, removed before the markup is stripped.
pub const BLOCKQUOTE_PATTERN: &'static str = "<blockquote[ >].*?</blockquote>";

/// Runs of line breaks, collapsed to one.
pub const NEWLINES_PATTERN: &'static str = "[\r\n]+";

/// Runs of ASCII and ideographic spaces, collapsed to one.
pub const SPACES_PATTERN: &'static str = "[ 　]+";

/// Prefix of quoted-reply lines, which are dropped.
pub const REPLY_PREFIX: &'static str = "RE:";

/// A post of an export: its HTML content.
pub struct Post {
    pub content: String,
}

/// What nanohtml2text makes of an HTML fragment.
pub uninterp spec fn html_text_of(html: Seq<char>) -> Seq<char>;

/// What replacing every match of a regular expression in `text` with `rep` gives.
pub uninterp spec fn regex_replaced(pattern: Seq<char>, text: Seq<char>, rep: Seq<char>) -> Seq<
    char,
>;

/// A character of Unicode's White_Space property.
pub open spec fn is_white_space(c: char) -> bool {
    let u = c as u32;
    (9 <= u <= 13) || u == 32 || u == 0x85 || u == 0xa0 || u == 0x1680 || (0x2000 <= u <= 0x200a)
        || u == 0x2028 || u == 0x2029 || u == 0x202f || u == 0x205f || u == 0x3000
}

/// `s` without its leading white space.
pub open spec fn trim_start(s: Seq<char>) -> Seq<char>
    decreases s.len(),
{
    if s.len() > 0 && is_white_space(s[0]) {
        trim_start(s.skip(1))
    } else {
        s
    }
}

/// `s` without its trailing white space.
pub open spec fn trim_end(s: Seq<char>) -> Seq<char>
    decreases s.len(),
{
    if s.len() > 0 && is_white_space(s.last()) {
        trim_end(s.drop_last())
    } else {
        s
    }
}

/// `s` without its leading and trailing white space.
pub open spec fn trimmed(s: Seq<char>) -> Seq<char> {
    trim_end(trim_start(s))
}

/// The pieces of `s` between line feeds: one more than there are line feeds.
pub open spec fn lf_pieces(s: Seq<char>) -> Seq<Seq<char>>
    decreases s.len(),
{
    if s.len() == 0 {
        seq![seq![]]
    } else {
        let r = lf_pieces(s.drop_last());
        if s.last() == '\n' {
            r.push(seq![])
        } else {
            r.update(r.len() - 1, r.last().push(s.last()))
        }
    }
}

/// A line that ended in a line feed, without the carriage return before it, if any.
pub open spec fn strip_cr(l: Seq<char>) -> Seq<char> {
    if l.len() > 0 && l.last() == '\r' {
        l.drop_last()
    } else {
        l
    }
}

/// The lines of `s`: the pieces between line feeds, each that ended in a line feed without
/// a carriage return before it, and the last piece only where it is not empty.
pub open spec fn lines_of(s: Seq<char>) -> Seq<Seq<char>> {
    let ps = lf_pieces(s);
    let full = ps.drop_last().map_values(|l: Seq<char>| strip_cr(l));
    if ps.last().len() == 0 {
        full
    } else {
        full.push(ps.last())
    }
}

/// `p` occurs in `s`.
pub open spec fn is_infix(p: Seq<char>, s: Seq<char>) -> bool {
    exists|i: int| 0 <= i && i + p.len() <= s.len() && #[trigger] s.subrange(i, i + p.len()) == p
}

/// `s` begins with `p`.
pub open spec fn is_prefix(p: Seq<char>, s: Seq<char>) -> bool {
    p.len() <= s.len() && s.subrange(0, p.len() as int) == p
}

/// Relies on `str::contains`: whether `pat` occurs in `s`.
#[verifier::external_body]
fn str_contains(s: &str, pat: &str) -> (r: bool)
    ensures
        r == is_infix(pat@, s@),
{
    s.contains(pat)
}

/// Relies on `str::starts_with`: whether `s` begins with `pat`.
#[verifier::external_body]
fn str_starts_with(s: &str, pat: &str) -> (r: bool)
    ensures
        r == is_prefix(pat@, s@),
{
    s.starts_with(pat)
}

/// Relies on `nanohtml2text::html2text`: the text of an HTML fragment, which depends on the
/// fragment alone.
#[verifier::external_body]
fn html2text(html: &str) -> (r: String)
    ensures
        r@ == html_text_of(html@),
{
    nanohtml2text::html2text(html)
}

/// One of the library's own expressions, each valid regex syntax.
pub open spec fn known_pattern(p: Seq<char>) -> bool {
    p == ANCHOR_PATTERN@ || p == PRE_PATTERN@ || p == CODE_PATTERN@ || p == BLOCKQUOTE_PATTERN@
        || p == NEWLINES_PATTERN@ || p == SPACES_PATTERN@
}

/// Relies on regex's `Regex::new` and `Regex::replace_all`: compiles `pattern`, which succeeds
/// on each of the library's own expressions, and replaces each match in `text` with `rep`;
/// the result depends on the three strings alone.
#[verifier::external_body]
fn regex_replace(pattern: &str, text: &str, rep: &str) -> (r: Option<String>)
    requires
        known_pattern(pattern@),
    ensures
        r is Some,
        r matches Some(s) ==> s@ == regex_replaced(pattern@, text@, rep@),
{
    match regex::Regex::new(pattern) {
        Ok(re) => Some(re.replace_all(text, rep).into_owned()),
        Err(_) => None,
    }
}

/// Relies on `str::trim`: removes leading and trailing characters of Unicode's White_Space
/// property.
#[verifier::external_body]
fn str_trim(s: &str) -> (r: String)
    ensures
        r@ == trimmed(s@),
{
    s.trim().to_string()
}

/// Relies on `str::lines`: splits at each line feed, drops a carriage return right before one,
/// and yields no final empty line.
#[verifier::external_body]
fn str_lines(s: &str) -> (r: Vec<String>)
    ensures
        r@.map_values(|l: String| l@) == lines_of(s@),
{
    s.lines().map(|l| l.to_string()).collect()
}

/// Whether a post is kept: it carries neither the quiz marker nor the puzzle marker.
pub fn filter(html: &str) -> (r: bool)
    ensures
        r == !(is_infix(QUIZ_MARKER@, html@) || is_infix(PUZZLE_MARKER@, html@)),
{
    if str_contains(html, QUIZ_MARKER) {
        return false;
    }
    if str_contains(html, PUZZLE_MARKER) {
        return false;
    }
    true
}

/// The text of a post once the removed elements are gone, the markup is stripped and runs
/// of line breaks and of spaces are collapsed.
pub open spec fn cleaned(html: Seq<char>) -> Seq<char> {
    let t = regex_replaced(ANCHOR_PATTERN@, html, seq![]);
    let t = regex_replaced(PRE_PATTERN@, t, seq![]);
    let t = regex_replaced(CODE_PATTERN@, t, seq![]);
    let t = regex_replaced(BLOCKQUOTE_PATTERN@, t, seq![]);
    let t = html_text_of(t);
    let t = regex_replaced(NEWLINES_PATTERN@, t, seq!['\n']);
    regex_replaced(SPACES_PATTERN@, t, seq![' '])
}

/// The lines of `ls` that are not quoted replies, in order.
pub open spec fn kept_lines(ls: Seq<Seq<char>>) -> Seq<Seq<char>>
    decreases ls.len(),
{
    if ls.len() == 0 {
        seq![]
    } else {
        let rest = kept_lines(ls.drop_last());
        if is_prefix(REPLY_PREFIX@, ls.last()) {
            rest
        } else {
            rest.push(ls.last())
        }
    }
}

/// The plain lines of one post.
pub open spec fn post_lines(html: Seq<char>) -> Seq<Seq<char>> {
    kept_lines(lines_of(trimmed(cleaned(html))))
}

/// The plain lines of the kept posts, post after post.
pub open spec fn texts_of(posts: Seq<Seq<char>>) -> Seq<Seq<char>>
    decreases posts.len(),
{
    if posts.len() == 0 {
        seq![]
    } else {
        let rest = texts_of(posts.drop_last());
        let c = posts.last();
        if !(is_infix(QUIZ_MARKER@, c) || is_infix(PUZZLE_MARKER@, c)) {
            rest + post_lines(c)
        } else {
            rest
        }
    }
}

fn replace_step(pattern: &str, text: &str, rep: &str) -> (r: String)
    requires
        known_pattern(pattern@),
    ensures
        r@ == regex_replaced(pattern@, text@, rep@),
{
    match regex_replace(pattern, text, rep) {
        Some(s) => s,
        None => String::new(),
    }
}

/// The plain lines of a post.
pub fn html_to_text(html: &str) -> (r: Vec<String>)
    ensures
        r@.map_values(|l: String| l@) == post_lines(html@),
{
    proof {
        reveal_strlit("");
        reveal_strlit("\n");
        reveal_strlit(" ");
    }
    let t = replace_step(ANCHOR_PATTERN, html, "");
    let t = replace_step(PRE_PATTERN, t.as_str(), "");
    let t = replace_step(CODE_PATTERN, t.as_str(), "");
    let t = replace_step(BLOCKQUOTE_PATTERN, t.as_str(), "");
    let t = html2text(t.as_str());
    let t = replace_step(NEWLINES_PATTERN, t.as_str(), "\n");
    let t = replace_step(SPACES_PATTERN, t.as_str(), " ");
    assert(""@ =~= Seq::<char>::empty());
    assert("\n"@ =~= seq!['\n']);
    assert(" "@ =~= seq![' ']);
    assert(t@ == cleaned(html@));
    let t = str_trim(t.as_str());
    let ls = str_lines(t.as_str());
    let ghost lv = ls@.map_values(|l: String| l@);
    let mut out: Vec<String> = Vec::new();
    let mut i: usize = 0;
    assert(lv.take(0) =~= Seq::<Seq<char>>::empty());
    while i < ls.len()
        invariant
            i <= ls.len(),
            lv == ls@.map_values(|l: String| l@),
            out@.map_values(|l: String| l@) == kept_lines(lv.take(i as int)),
        decreases ls.len() - i,
    {
        let keep = !str_starts_with(ls[i].as_str(), REPLY_PREFIX);
        let ghost before = out@;
        if keep {
            out.push(ls[i].clone());
        }
        proof {
            assert(lv.take(i + 1).drop_last() =~= lv.take(i as int));
            assert(out@.map_values(|l: String| l@) =~= kept_lines(lv.take(i + 1)));
        }
        i += 1;
    }
    assert(lv.take(i as int) =~= lv);
    out
}

/// The plain lines of every kept post, in order.
pub fn posts_to_texts(posts: &[Post]) -> (r: Vec<String>)
    ensures
        r@.map_values(|l: String| l@) == texts_of(
            posts@.map_values(|p: Post| p.content@),
        ),
{
    let ghost pv = posts@.map_values(|p: Post| p.content@);
    let mut out: Vec<String> = Vec::new();
    let mut i: usize = 0;
    assert(pv.take(0) =~= Seq::<Seq<char>>::empty());
    while i < posts.len()
        invariant
            i <= posts@.len(),
            pv == posts@.map_values(|p: Post| p.content@),
            out@.map_values(|l: String| l@) == texts_of(pv.take(i as int)),
        decreases posts@.len() - i,
    {
        let c = posts[i].content.as_str();
        proof {
            assert(pv.take(i + 1).drop_last() =~= pv.take(i as int));
            assert(pv.take(i + 1).last() == c@);
        }
        if filter(c) {
            let lines = html_to_text(c);
            let ghost before = out@;
            let mut j: usize = 0;
            while j < lines.len()
                invariant
                    j <= lines.len(),
                    out@.map_values(|l: String| l@) == before.map_values(|l: String| l@)
                        + lines@.map_values(|l: String| l@).take(j as int),
                decreases lines.len() - j,
            {
                let ghost prev = out@;
                out.push(lines[j].clone());
                proof {
                    assert(out@.map_values(|l: String| l@) =~= prev.map_values(|l: String| l@).push(
                        lines@[j as int]@,
                    ));
                    assert(lines@.map_values(|l: String| l@).take(j + 1) =~= lines@.map_values(
                        |l: String| l@,
                    ).take(j as int).push(lines@[j as int]@));
                    assert(out@.map_values(|l: String| l@) =~= before.map_values(|l: String| l@)
                        + lines@.map_values(|l: String| l@).take(j + 1));
                }
                j += 1;
            }
            assert(lines@.map_values(|l: String| l@).take(j as int) =~= lines@.map_values(
                |l: String| l@,
            ));
        }
        i += 1;
    }
    assert(pv.take(i as int) =~= pv);
    out
}

} // verus!
