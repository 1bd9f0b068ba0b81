//! The user manual: a Markdown-like text cut into sections of paragraphs.
//!
//! The text is HTML with `#` headings: `# ` starts the title of the
//! document, which is skipped, `## ` starts a section, and blank lines
//! separate paragraphs. `$POINTS` in a paragraph stands for the reader's
//! balance.

use vstd::prelude::*;

use crate::text::{push_char, split_char, split_on, strings_view, strip_prefix, stripped_prefix};

verus! {

/// A section of the manual: its title (empty for the text before the first
/// heading), the anchor that links to it, and its paragraphs.
#[derive(Clone, Debug)]
pub struct HelpSection {
    pub title: String,
    pub anchor: String,
    pub body: Vec<String>,
}

/// `s` without a carriage return at its end.
pub open spec fn without_cr(s: Seq<char>) -> Seq<char> {
    if s.len() > 0 && s.last() == '\r' {
        s.drop_last()
    } else {
        s
    }
}

/// What `str::lines` gives: the pieces between line feeds, each without a
/// carriage return before its line feed; a line feed at the very end does
/// not start another line.
pub open spec fn text_lines(s: Seq<char>) -> Seq<Seq<char>> {
    let pieces = split_on(s, '\n');
    let ended = pieces.drop_last().map_values(|l: Seq<char>| without_cr(l));
    if pieces.last().len() == 0 {
        ended
    } else {
        ended.push(pieces.last())
    }
}

/// `s` with every occurrence of `pat` (a non-empty pattern), from left to
/// right and without overlap, replaced by `with`: what `str::replace` gives.
pub open spec fn replaced(s: Seq<char>, pat: Seq<char>, with: Seq<char>) -> Seq<char>
    decreases s.len(),
{
    if pat.len() > 0 && pat.len() <= s.len() && s.subrange(0, pat.len() as int) == pat {
        with + replaced(s.subrange(pat.len() as int, s.len() as int), pat, with)
    } else if s.len() == 0 {
        s
    } else {
        seq![s[0]] + replaced(s.drop_first(), pat, with)
    }
}

/// What `str::to_lowercase` returns: the lowercase mapping of every character, as Unicode defines it.
pub uninterp spec fn lowercase(s: Seq<char>) -> Seq<char>;

/// `str::to_lowercase`.
#[verifier::external_body]
fn to_lowercase(s: &str) -> (r: String)
    ensures
        r@ == lowercase(s@),
{
    s.to_lowercase()
}

/// The anchor of a section: its title in lowercase, with a `-` for every space.
pub open spec fn anchor_of(title: Seq<char>) -> Seq<char> {
    replaced(lowercase(title), " "@, "-"@)
}

/// The paragraphs of a section so far, with the paragraph being read added
/// when it is not empty, `$POINTS` in it replaced by `points`.
pub open spec fn flushed(body: Seq<Seq<char>>, paragraph: Seq<char>, points: Seq<char>) -> Seq<Seq<char>> {
    if paragraph.len() == 0 {
        body
    } else {
        body.push(replaced(paragraph, "$POINTS"@, points))
    }
}

/// What reading the manual gathers: the finished sections (title and
/// paragraphs), the title and paragraphs of the current section, and the
/// lines of the current paragraph.
pub type HelpState = (Seq<(Seq<char>, Seq<Seq<char>>)>, Seq<char>, Seq<Seq<char>>, Seq<char>);

/// Reading one line of the manual. A line of a paragraph joins it after a
/// line feed.
pub open spec fn help_step(st: HelpState, line: Seq<char>, points: Seq<char>) -> HelpState {
    if stripped_prefix(line, "# "@) is Some {
        st
    } else if stripped_prefix(line, "## "@) is Some {
        (
            st.0.push((st.1, flushed(st.2, st.3, points))),
            stripped_prefix(line, "## "@)->0,
            Seq::empty(),
            Seq::empty(),
        )
    } else if line.len() == 0 {
        (st.0, st.1, flushed(st.2, st.3, points), Seq::empty())
    } else {
        (st.0, st.1, st.2, st.3 + seq!['\n'] + line)
    }
}

pub open spec fn help_fold(lines: Seq<Seq<char>>, points: Seq<char>) -> HelpState
    decreases lines.len(),
{
    if lines.len() == 0 {
        (Seq::empty(), Seq::empty(), Seq::empty(), Seq::empty())
    } else {
        help_step(help_fold(lines.drop_last(), points), lines.last(), points)
    }
}

/// The sections of the manual, as (title, paragraphs). The fold collects the
/// text before the first heading as a first, untitled section; its
/// paragraphs are left out.
pub open spec fn help_sections_spec(raw: Seq<char>, points: Seq<char>) -> Seq<(Seq<char>, Seq<Seq<char>>)> {
    let st = help_fold(text_lines(raw), points);
    st.0.push((st.1, flushed(st.2, st.3, points))).drop_first()
}

pub open spec fn section_view(h: HelpSection) -> (Seq<char>, Seq<Seq<char>>) {
    (h.title@, strings_view(h.body@))
}

/// `str::lines`, as owned strings.
pub fn lines_of(s: &str) -> (r: Vec<String>)
    ensures
        strings_view(r@) == text_lines(s@),
{
    let pieces = split_char(s, '\n');
    let ghost ps = split_on(s@, '\n');
    proof {
        crate::text::lemma_split_nonempty(s@, '\n');
    }
    let n = pieces.len();
    let mut r: Vec<String> = Vec::new();
    let mut k: usize = 0;
    while k + 1 < n
        invariant
            strings_view(pieces@) == ps,
            n == pieces.len(),
            n >= 1,
            k < n,
            strings_view(r@) == ps.subrange(0, k as int).map_values(|l: Seq<char>| without_cr(l)),
        decreases n - k,
    {
        let line = pieces[k].as_str();
        assert(ps[k as int] == line@);
        let cs = crate::text::chars_of(line);
        let mut t = String::new();
        let end = if cs.len() > 0 && cs[cs.len() - 1] == '\r' {
            cs.len() - 1
        } else {
            cs.len()
        };
        let mut j: usize = 0;
        while j < end
            invariant
                cs@ == line@,
                end <= cs.len(),
                j <= end,
                t@ == line@.subrange(0, j as int),
            decreases end - j,
        {
            push_char(&mut t, cs[j]);
            j = j + 1;
            assert(t@ =~= line@.subrange(0, j as int));
        }
        proof {
            assert(t@ =~= without_cr(line@));
        }
        let ghost before = r@;
        r.push(t);
        proof {
            assert(strings_view(r@) =~= strings_view(before).push(without_cr(line@)));
            assert(ps.subrange(0, k + 1).map_values(|l: Seq<char>| without_cr(l)) =~= ps.subrange(
                0,
                k as int,
            ).map_values(|l: Seq<char>| without_cr(l)).push(without_cr(ps[k as int])));
        }
        k = k + 1;
    }
    assert(ps.subrange(0, k as int) =~= ps.drop_last());
    let last = pieces[n - 1].as_str();
    assert(ps.last() == last@);
    if last.unicode_len() > 0 {
        let ghost before = r@;
        r.push(last.to_owned());
        assert(strings_view(r@) =~= strings_view(before).push(last@));
    }
    r
}

/// `str::replace` with a non-empty pattern.
pub fn replace_all(s: &str, pat: &str, with: &str) -> (r: String)
    requires
        pat@.len() > 0,
    ensures
        r@ == replaced(s@, pat@, with@),
{
    let cs = crate::text::chars_of(s);
    let ps = crate::text::chars_of(pat);
    let mut r = String::new();
    let mut k: usize = 0;
    assert(s@.subrange(0, s@.len() as int) =~= s@);
    while k < cs.len()
        invariant
            cs@ == s@,
            ps@ == pat@,
            ps@.len() > 0,
            k <= cs.len(),
            r@ + replaced(s@.subrange(k as int, s@.len() as int), pat@, with@) == replaced(s@, pat@, with@),
        decreases cs.len() - k,
    {
        let ghost rest = s@.subrange(k as int, s@.len() as int);
        // Does the pattern start here?
        let mut matches = ps.len() <= cs.len() - k;
        let mut j: usize = 0;
        while matches && j < ps.len()
            invariant
                cs@ == s@,
                ps@ == pat@,
                k <= cs.len(),
                rest == s@.subrange(k as int, s@.len() as int),
                j <= ps.len(),
                matches ==> ps.len() <= cs.len() - k,
                matches ==> forall|q: int| 0 <= q < j ==> rest[q] == ps@[q],
                !matches ==> !(ps@.len() <= rest.len() && rest.subrange(0, ps@.len() as int) == pat@),
            decreases ps.len() - j + (if matches { 1int } else { 0int }),
        {
            if cs[k + j] != ps[j] {
                assert(rest.subrange(0, ps@.len() as int)[j as int] != pat@[j as int]);
                matches = false;
            } else {
                j = j + 1;
            }
        }
        if matches {
            assert(rest.subrange(0, ps@.len() as int) =~= pat@);
            let ghost before = r@;
            r.append(with);
            proof {
                assert(rest.subrange(ps@.len() as int, rest.len() as int) =~= s@.subrange(
                    k + ps@.len(),
                    s@.len() as int,
                ));
                assert(r@ =~= before + with@);
                assert(before + replaced(rest, pat@, with@) == before + (with@ + replaced(
                    rest.subrange(ps@.len() as int, rest.len() as int),
                    pat@,
                    with@,
                )));
                assert(before + (with@ + replaced(rest.subrange(ps@.len() as int, rest.len() as int), pat@, with@))
                    =~= r@ + replaced(rest.subrange(ps@.len() as int, rest.len() as int), pat@, with@));
            }
            k = k + ps.len();
        } else {
            let ghost before = r@;
            push_char(&mut r, cs[k]);
            proof {
                assert(rest.drop_first() =~= s@.subrange(k + 1, s@.len() as int));
                assert(rest[0] == cs@[k as int]);
                assert(before + (seq![rest[0]] + replaced(rest.drop_first(), pat@, with@))
                    =~= r@ + replaced(rest.drop_first(), pat@, with@));
            }
            k = k + 1;
        }
    }
    assert(s@.subrange(k as int, s@.len() as int).len() == 0);
    assert(r@ + Seq::<char>::empty() =~= r@);
    r
}

/// The paragraphs so far, with the current paragraph added when it is not
/// empty; the paragraph is emptied.
fn flush(body: &mut Vec<String>, paragraph: &mut String, points: &str)
    ensures
        strings_view(final(body)@) == flushed(strings_view(old(body)@), old(paragraph)@, points@),
        final(paragraph)@ == Seq::<char>::empty(),
{
    if paragraph.as_str().unicode_len() > 0 {
        proof {
            reveal_strlit("$POINTS");
        }
        let text = replace_all(paragraph.as_str(), "$POINTS", points);
        let ghost before = body@;
        body.push(text);
        assert(strings_view(body@) =~= strings_view(before).push(text@));
    }
    *paragraph = String::new();
}

/// The section with the given title and paragraphs.
fn make_section(title: String, body: Vec<String>) -> (r: HelpSection)
    ensures
        r.title@ == title@,
        r.anchor@ == anchor_of(title@),
        strings_view(r.body@) == strings_view(body@),
{
    let lower = to_lowercase(title.as_str());
    proof {
        reveal_strlit(" ");
    }
    let anchor = replace_all(lower.as_str(), " ", "-");
    HelpSection { title, anchor, body }
}

/// Cut the manual into sections of paragraphs, with `$POINTS` replaced by
/// `points`. The document's own title (a `# ` line) is skipped, and so are
/// the paragraphs before the first section heading (a `## ` line).
pub fn help_sections(raw: &str, points: &str) -> (r: Vec<HelpSection>)
    ensures
        r@.map_values(|h: HelpSection| section_view(h)) == help_sections_spec(raw@, points@),
        forall|i: int| 0 <= i < r@.len() ==> (#[trigger] r@[i]).anchor@ == anchor_of(r@[i].title@),
{
    let lines = lines_of(raw);
    let ghost ls = text_lines(raw@);
    let mut result: Vec<HelpSection> = Vec::new();
    let mut title = String::new();
    let mut body: Vec<String> = Vec::new();
    let mut paragraph = String::new();
    let mut k: usize = 0;
    while k < lines.len()
        invariant
            strings_view(lines@) == ls,
            k <= lines.len(),
            ({
                let st = help_fold(ls.subrange(0, k as int), points@);
                &&& result@.map_values(|h: HelpSection| section_view(h)) == st.0
                &&& title@ == st.1
                &&& strings_view(body@) == st.2
                &&& paragraph@ == st.3
            }),
            forall|i: int| 0 <= i < result@.len() ==> (#[trigger] result@[i]).anchor@ == anchor_of(result@[i].title@),
        decreases lines.len() - k,
    {
        let line = lines[k].as_str();
        proof {
            assert(ls.subrange(0, k + 1).drop_last() =~= ls.subrange(0, k as int));
            assert(ls.subrange(0, k + 1).last() == line@);
        }
        let ghost r0 = result@;
        if strip_prefix(line, "# ").is_some() {
        } else if let Some(heading) = strip_prefix(line, "## ") {
            flush(&mut body, &mut paragraph, points);
            let mut done: Vec<String> = Vec::new();
            std::mem::swap(&mut done, &mut body);
            let mut old_title = heading;
            std::mem::swap(&mut old_title, &mut title);
            let section = make_section(old_title, done);
            result.push(section);
            proof {
                assert(result@.map_values(|h: HelpSection| section_view(h)) =~= r0.map_values(
                    |h: HelpSection| section_view(h),
                ).push(section_view(section)));
                assert(strings_view(body@) =~= Seq::<Seq<char>>::empty());
                assert forall|i: int| 0 <= i < result@.len() implies (#[trigger] result@[i]).anchor@ == anchor_of(
                    result@[i].title@,
                ) by {
                    if i < r0.len() {
                        assert(result@[i] == r0[i]);
                    }
                }
            }
        } else if line.unicode_len() == 0 {
            flush(&mut body, &mut paragraph, points);
        } else {
            push_char(&mut paragraph, '\n');
            paragraph.append(line);
        }
        k = k + 1;
    }
    proof {
        assert(ls.subrange(0, k as int) =~= ls);
    }
    let ghost r0 = result@;
    flush(&mut body, &mut paragraph, points);
    let section = make_section(title, body);
    result.push(section);
    proof {
        assert(result@.map_values(|h: HelpSection| section_view(h)) =~= r0.map_values(|h: HelpSection| section_view(h)).push(
            section_view(section),
        ));
        assert forall|i: int| 0 <= i < result@.len() implies (#[trigger] result@[i]).anchor@ == anchor_of(
            result@[i].title@,
        ) by {
            if i < r0.len() {
                assert(result@[i] == r0[i]);
            }
        }
    }
    // The text before the first heading is left out.
    let ghost all = result@;
    result.remove(0);
    proof {
        assert(result@ =~= all.drop_first());
        assert(result@.map_values(|h: HelpSection| section_view(h)) =~= all.map_values(
            |h: HelpSection| section_view(h),
        ).drop_first());
        assert forall|i: int| 0 <= i < result@.len() implies (#[trigger] result@[i]).anchor@ == anchor_of(
            result@[i].title@,
        ) by {
            assert(result@[i] == all[i + 1]);
        }
    }
    result
}

} // verus!
