//! Locating the configuration blob and the web player script in a page.
use vstd::prelude::*;
use crate::ledger::opt_view;
use crate::text::{chars_of, string_from_chars};

verus! {

/// Text of the first element, in document order, that `selector` matches in
/// the page `html`; `None` where none matches or the selector is invalid.
pub uninterp spec fn selected_text(html: Seq<char>, selector: Seq<char>) -> Option<Seq<char>>;

/// The value of attribute `attr` on each element that `selector` matches in
/// the page `html`, in document order (`None` where an element lacks it).
pub uninterp spec fn selected_attrs(html: Seq<char>, selector: Seq<char>, attr: Seq<char>) -> Seq<Option<Seq<char>>>;

/// Group 1 of the first match of `pattern` in `haystack`; `None` where there
/// is no match or the pattern does not compile.
pub uninterp spec fn regex_group(pattern: Seq<char>, haystack: Seq<char>) -> Option<Seq<char>>;

/// Relies on scraper's `Html::parse_document`, `Selector::parse`,
/// `Html::select` and `ElementRef::text`: the concatenated text nodes of the
/// first match. The result depends on the two texts alone.
#[verifier::external_body]
fn first_selected_text(html: &str, selector: &str) -> (r: Option<String>)
    ensures
        opt_view(r) == selected_text(html@, selector@),
{
    let document = scraper::Html::parse_document(html);
    let selector = scraper::Selector::parse(selector).ok()?;
    let element = document.select(&selector).next()?;
    Some(element.text().collect::<String>())
}

/// Relies on scraper's `Html::parse_document`, `Selector::parse`,
/// `Html::select` and `Element::attr`: one item per matched element, in
/// document order; no item where the selector is invalid.
#[verifier::external_body]
fn selected_attr_values(html: &str, selector: &str, attr: &str) -> (r: Vec<Option<String>>)
    ensures
        r@.len() == selected_attrs(html@, selector@, attr@).len(),
        forall|i: int|
            0 <= i < r@.len() ==> opt_view(#[trigger] r@[i]) == selected_attrs(html@, selector@, attr@)[i],
{
    let document = scraper::Html::parse_document(html);
    match scraper::Selector::parse(selector) {
        Ok(sel) => document.select(&sel).map(|e| e.value().attr(attr).map(|v| v.to_string())).collect(),
        Err(_) => Vec::new(),
    }
}

/// Relies on regex's `Regex::new` and `Regex::captures`: group 1 of the
/// leftmost match.
#[verifier::external_body]
fn first_capture(pattern: &str, haystack: &str) -> (r: Option<String>)
    ensures
        opt_view(r) == regex_group(pattern@, haystack@),
{
    let re = regex::Regex::new(pattern).ok()?;
    let caps = re.captures(haystack)?;
    caps.get(1).map(|m| m.as_str().to_string())
}

/// The characters for which `char::is_whitespace` holds (Unicode `White_Space`).
pub open spec fn is_white_space(c: char) -> bool {
    ('\t' <= c && c <= '\r') || c == ' ' || c == '\u{85}' || c == '\u{a0}' || c == '\u{1680}' || (
    '\u{2000}' <= c && c <= '\u{200a}') || c == '\u{2028}' || c == '\u{2029}' || c == '\u{202f}'
        || c == '\u{205f}' || c == '\u{3000}'
}

pub open spec fn trim_start(s: Seq<char>) -> Seq<char>
    decreases s.len(),
{
    if s.len() > 0 && is_white_space(s[0]) {
        trim_start(s.drop_first())
    } else {
        s
    }
}

pub open spec fn trim_end(s: Seq<char>) -> Seq<char>
    decreases s.len(),
{
    if s.len() > 0 && is_white_space(s.last()) {
        trim_end(s.drop_last())
    } else {
        s
    }
}

/// `s` without leading and trailing white space.
pub open spec fn trimmed(s: Seq<char>) -> Seq<char> {
    trim_end(trim_start(s))
}

fn white_space(c: char) -> (r: bool)
    ensures
        r == is_white_space(c),
{
    ('\t' <= c && c <= '\r') || c == ' ' || c == '\u{85}' || c == '\u{a0}' || c == '\u{1680}' || (
    '\u{2000}' <= c && c <= '\u{200a}') || c == '\u{2028}' || c == '\u{2029}' || c == '\u{202f}'
        || c == '\u{205f}' || c == '\u{3000}'
}

/// `s` without leading and trailing white space.
pub fn trim_text(s: &str) -> (r: String)
    ensures
        r@ == trimmed(s@),
{
    let cs = chars_of(s);
    let n = cs.len();
    let mut start: usize = 0;
    proof {
        assert(cs@.subrange(0, n as int) =~= cs@);
    }
    while start < n && white_space(cs[start])
        invariant
            n == cs@.len(),
            start <= n,
            trim_start(cs@) == trim_start(cs@.subrange(start as int, n as int)),
        decreases n - start,
    {
        proof {
            let t = cs@.subrange(start as int, n as int);
            assert(t.drop_first() =~= cs@.subrange(start + 1, n as int));
        }
        start += 1;
    }
    let ghost mid = cs@.subrange(start as int, n as int);
    assert(trim_start(cs@) == mid);
    let mut end: usize = n;
    proof {
        assert(cs@.subrange(start as int, end as int) =~= mid);
    }
    while end > start && white_space(cs[end - 1])
        invariant
            n == cs@.len(),
            start <= end <= n,
            trim_end(mid) == trim_end(cs@.subrange(start as int, end as int)),
        decreases end - start,
    {
        proof {
            let t = cs@.subrange(start as int, end as int);
            assert(t.drop_last() =~= cs@.subrange(start as int, end - 1));
        }
        end -= 1;
    }
    let ghost kept = cs@.subrange(start as int, end as int);
    assert(trim_end(mid) == kept);
    let mut out: Vec<char> = Vec::new();
    let mut k: usize = start;
    while k < end
        invariant
            n == cs@.len(),
            start <= k <= end <= n,
            out@ == cs@.subrange(start as int, k as int),
        decreases end - k,
    {
        out.push(cs[k]);
        k += 1;
        proof {
            assert(out@ =~= cs@.subrange(start as int, k as int));
        }
    }
    proof {
        assert(out@ =~= kept);
    }
    string_from_chars(&out)
}

/// The selectors tried for the configuration tag, in order.
pub open spec fn config_selectors() -> Seq<Seq<char>> {
    seq![
        "script[id=\"appServerConfig\"][type=\"text/plain\"]"@,
        "script[id=\"appServerConfig\"]"@,
        "#appServerConfig"@,
    ]
}

/// The pattern tried when no selector matches: the content, free of `<`, of
/// a script tag with id `appServerConfig`.
pub open spec fn config_pattern() -> Seq<char> {
    "<script[^>]*id=\"appServerConfig\"[^>]*>([^<]+)</script>"@
}

/// The text of the first selector that matches.
pub open spec fn first_selected(html: Seq<char>, sels: Seq<Seq<char>>) -> Option<Seq<char>>
    decreases sels.len(),
{
    if sels.len() == 0 {
        None
    } else {
        match selected_text(html, sels[0]) {
            Some(t) => Some(t),
            None => first_selected(html, sels.drop_first()),
        }
    }
}

/// The configuration blob of a page: the trimmed text of the first strategy
/// that finds the tag.
pub open spec fn config_blob(html: Seq<char>) -> Option<Seq<char>> {
    let found = match first_selected(html, config_selectors()) {
        Some(t) => Some(t),
        None => regex_group(config_pattern(), html),
    };
    match found {
        Some(t) => Some(trimmed(t)),
        None => None,
    }
}

pub open spec fn contains_seq(s: Seq<char>, needle: Seq<char>) -> bool {
    exists|i: int| 0 <= i && i + needle.len() <= s.len() && #[trigger] s.subrange(i, i + needle.len()) == needle
}

pub open spec fn ends_with_seq(s: Seq<char>, suffix: Seq<char>) -> bool {
    suffix.len() <= s.len() && s.subrange(s.len() - suffix.len(), s.len() as int) == suffix
}

/// A script source that names the web player bundle.
pub open spec fn is_web_player(src: Seq<char>) -> bool {
    contains_seq(src, "web-player"@) && ends_with_seq(src, ".js"@)
}

/// The first present source that names the web player.
pub open spec fn first_web_player(srcs: Seq<Option<Seq<char>>>) -> Option<Seq<char>>
    decreases srcs.len(),
{
    if srcs.len() == 0 {
        None
    } else {
        match srcs[0] {
            Some(s) => if is_web_player(s) {
                Some(s)
            } else {
                first_web_player(srcs.drop_first())
            },
            None => first_web_player(srcs.drop_first()),
        }
    }
}

/// The web player script of a page, if any.
pub open spec fn web_player_url(html: Seq<char>) -> Option<Seq<char>> {
    first_web_player(selected_attrs(html, "script[src]"@, "src"@))
}

fn has_subsequence(s: &Vec<char>, needle: &Vec<char>) -> (r: bool)
    ensures
        r == contains_seq(s@, needle@),
{
    if needle.len() > s.len() {
        return false;
    }
    if needle.len() == 0 {
        assert(s@.subrange(0, 0 + needle@.len() as int) =~= needle@);
        return true;
    }
    let n = s.len();
    let last = n - needle.len();
    let mut i: usize = 0;
    while i <= last
        invariant
            1 <= needle@.len() <= s@.len(),
            n == s@.len(),
            last == s@.len() - needle@.len(),
            i <= last + 1,
            forall|j: int| 0 <= j < i ==> #[trigger] s@.subrange(j, j + needle@.len()) != needle@,
        decreases last + 1 - i,
    {
        let mut k: usize = 0;
        while k < needle.len() && s[i + k] == needle[k]
            invariant
                i <= last,
                1 <= needle@.len() <= s@.len(),
                n == s@.len(),
                last == s@.len() - needle@.len(),
                k <= needle@.len(),
                forall|t: int| 0 <= t < k ==> s@[i + t] == needle@[t],
            decreases needle.len() - k,
        {
            k += 1;
        }
        if k == needle.len() {
            assert(s@.subrange(i as int, i + needle@.len()) =~= needle@);
            return true;
        }
        assert(s@.subrange(i as int, i + needle@.len())[k as int] != needle@[k as int]);
        i += 1;
    }
    proof {
        assert forall|j: int| 0 <= j && j + needle@.len() <= s@.len() implies #[trigger] s@.subrange(
            j,
            j + needle@.len(),
        ) != needle@ by {
            assert(j < i);
        }
    }
    false
}

fn has_suffix(s: &Vec<char>, suffix: &Vec<char>) -> (r: bool)
    ensures
        r == ends_with_seq(s@, suffix@),
{
    if suffix.len() > s.len() {
        return false;
    }
    let n = s.len();
    let off = n - suffix.len();
    let mut k: usize = 0;
    while k < suffix.len()
        invariant
            suffix@.len() <= s@.len(),
            n == s@.len(),
            off == s@.len() - suffix@.len(),
            k <= suffix@.len(),
            forall|t: int| 0 <= t < k ==> s@[off + t] == suffix@[t],
        decreases suffix.len() - k,
    {
        if s[off + k] != suffix[k] {
            assert(s@.subrange(off as int, s@.len() as int)[k as int] != suffix@[k as int]);
            return false;
        }
        k += 1;
    }
    assert(s@.subrange(off as int, s@.len() as int) =~= suffix@);
    true
}

/// Whether a script source names the web player bundle.
pub fn names_web_player(src: &str) -> (r: bool)
    ensures
        r == is_web_player(src@),
{
    let s = chars_of(src);
    let marker = chars_of("web-player");
    let ext = chars_of(".js");
    has_subsequence(&s, &marker) && has_suffix(&s, &ext)
}

/// Finds the embedded configuration blob, trimmed, and the web player
/// script's URL. Selector matches come first, in order; the pattern is the
/// fallback.
pub fn extract_config_blob(html: &str) -> (r: (Option<String>, Option<String>))
    ensures
        opt_view(r.0) == config_blob(html@),
        opt_view(r.1) == web_player_url(html@),
{
    let selectors = vec![
        "script[id=\"appServerConfig\"][type=\"text/plain\"]",
        "script[id=\"appServerConfig\"]",
        "#appServerConfig",
    ];
    let ghost sels = config_selectors();
    assert(selectors@.len() == 3);
    assert(forall|j: int| 0 <= j < 3 ==> #[trigger] selectors@[j]@ == sels[j]);
    let mut found: Option<String> = None;
    let mut i: usize = 0;
    assert(sels.skip(0) =~= sels);
    while i < selectors.len()
        invariant
            selectors@.len() == sels.len(),
            forall|j: int| 0 <= j < sels.len() ==> #[trigger] selectors@[j]@ == sels[j],
            i <= sels.len(),
            found is None ==> first_selected(html@, sels) == first_selected(html@, sels.skip(i as int)),
            found is Some ==> opt_view(found) == first_selected(html@, sels),
        decreases selectors.len() - i,
    {
        if found.is_none() {
            let t = first_selected_text(html, selectors[i]);
            proof {
                assert(sels.skip(i as int).drop_first() =~= sels.skip(i as int + 1));
                assert(sels.skip(i as int)[0] == sels[i as int]);
            }
            found = t;
        } else {
            proof {
                assert(sels.skip(i as int).drop_first() =~= sels.skip(i as int + 1));
            }
        }
        i += 1;
    }
    if found.is_none() {
        assert(sels.skip(3).len() == 0);
        found = first_capture("<script[^>]*id=\"appServerConfig\"[^>]*>([^<]+)</script>", html);
    }
    let blob = match found {
        Some(t) => Some(trim_text(t.as_str())),
        None => None,
    };
    let srcs = selected_attr_values(html, "script[src]", "src");
    let ghost sv = selected_attrs(html@, "script[src]"@, "src"@);
    let mut player: Option<String> = None;
    let mut k: usize = 0;
    proof {
        assert(sv.skip(0) =~= sv);
    }
    while k < srcs.len()
        invariant
            srcs@.len() == sv.len(),
            forall|j: int| 0 <= j < sv.len() ==> opt_view(#[trigger] srcs@[j]) == sv[j],
            k <= sv.len(),
            player is None ==> first_web_player(sv) == first_web_player(sv.skip(k as int)),
            player is Some ==> opt_view(player) == first_web_player(sv),
        decreases srcs.len() - k,
    {
        if player.is_none() {
            proof {
                assert(sv.skip(k as int).drop_first() =~= sv.skip(k as int + 1));
                assert(sv.skip(k as int)[0] == sv[k as int]);
                assert(opt_view(srcs@[k as int]) == sv[k as int]);
            }
            match &srcs[k] {
                Some(s) => {
                    if names_web_player(s.as_str()) {
                        player = Some(s.clone());
                    }
                },
                None => {},
            }
        } else {
            proof {
                assert(sv.skip(k as int).drop_first() =~= sv.skip(k as int + 1));
            }
        }
        k += 1;
    }
    if player.is_none() {
        assert(sv.skip(sv.len() as int).len() == 0);
    }
    (blob, player)
}

} // verus!
