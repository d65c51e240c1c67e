//! The transcoder from the feed's bracket markup to the escaped markup of the
//! messaging endpoint.
use vstd::prelude::*;
use vstd::string::*;
use crate::chunks::views;
use crate::scan::{
    Closers,
    occurs_at, matches_at, replace_blocks, replace_all_blocks, replace_lit, replace_all_lit,
};
use crate::text::{chars_of, string_of};

verus! {

/// The opening of a link construct.
pub open spec fn url_open() -> Seq<char> {
    "[url="@
}

/// The closing tag of a link construct.
pub open spec fn url_close() -> Seq<char> {
    "[/url]"@
}

/// The first position at or after `j` that holds `c`, or the length of `s`.
pub open spec fn first_from(s: Seq<char>, j: int, c: char) -> int
    decreases s.len() - j,
{
    if j < 0 || j >= s.len() {
        s.len() as int
    } else if s[j] == c {
        j
    } else {
        first_from(s, j + 1, c)
    }
}

/// The link construct `[url=TARGET]LABEL[/url]` that starts at `i`, if one
/// does: the position of the `]` after the target, the position of the
/// closing tag, and the end of the construct. Target and label are
/// non-empty; the target holds no `]` and the label no `[`.
pub open spec fn link_at(s: Seq<char>, i: int) -> Option<(int, int, int)> {
    if occurs_at(s, i, url_open()) {
        let k = first_from(s, i + url_open().len(), ']');
        let m = first_from(s, k + 1, '[');
        if i + url_open().len() < k < s.len() && k + 1 < m && occurs_at(s, m, url_close()) {
            Some((k, m, m + url_close().len()))
        } else {
            None
        }
    } else {
        None
    }
}

/// The decimal digit `d`.
pub open spec fn digit(d: nat) -> char {
    if d == 0 { '0' }
    else if d == 1 { '1' }
    else if d == 2 { '2' }
    else if d == 3 { '3' }
    else if d == 4 { '4' }
    else if d == 5 { '5' }
    else if d == 6 { '6' }
    else if d == 7 { '7' }
    else if d == 8 { '8' }
    else { '9' }
}

/// The decimal writing of `n`.
pub open spec fn decimal(n: nat) -> Seq<char>
    decreases n,
{
    if n < 10 {
        seq![digit(n)]
    } else {
        decimal(n / 10).push(digit(n % 10))
    }
}

/// The stem of every placeholder.
pub open spec fn placeholder_stem() -> Seq<char> {
    "SomeReplacement"@
}

/// The placeholder that stands for the link fragment of index `n`.
pub open spec fn placeholder(n: nat) -> Seq<char> {
    placeholder_stem() + decimal(n)
}

/// `s[i..]` with each link construct replaced by a placeholder, numbered
/// from `n` in the order of appearance.
pub open spec fn protect_from(s: Seq<char>, i: int, n: nat) -> Seq<char>
    decreases s.len() - i,
{
    if i < 0 || i >= s.len() {
        Seq::empty()
    } else {
        match link_at(s, i) {
            Some((_k, _m, e)) => placeholder(n) + protect_from(s, e, n + 1),
            None => seq![s[i]] + protect_from(s, i + 1, n),
        }
    }
}

/// The link constructs of `s[i..]`, in the order of appearance.
pub open spec fn fragments_from(s: Seq<char>, i: int) -> Seq<Seq<char>>
    decreases s.len() - i,
{
    if i < 0 || i >= s.len() {
        Seq::empty()
    } else {
        match link_at(s, i) {
            Some((_k, _m, e)) => seq![s.subrange(i, e)] + fragments_from(s, e),
            None => fragments_from(s, i + 1),
        }
    }
}

/// How many link constructs a left-to-right scan of `s[i..]` finds.
pub open spec fn link_count_from(s: Seq<char>, i: int) -> nat
    decreases s.len() - i,
{
    if i < 0 || i >= s.len() {
        0
    } else {
        match link_at(s, i) {
            Some((_k, _m, e)) => 1 + link_count_from(s, e),
            None => link_count_from(s, i + 1),
        }
    }
}

/// `s[i..]` with each link construct `[url=TARGET]LABEL[/url]` written as
/// `[LABEL](TARGET)`.
pub open spec fn rewrite_from(s: Seq<char>, i: int) -> Seq<char>
    decreases s.len() - i,
{
    if i < 0 || i >= s.len() {
        Seq::empty()
    } else {
        match link_at(s, i) {
            Some((k, m, e)) => seq!['['] + s.subrange(k + 1, m) + seq![']', '(']
                + s.subrange(i + url_open().len(), k) + seq![')'] + rewrite_from(s, e),
            None => seq![s[i]] + rewrite_from(s, i + 1),
        }
    }
}

/// `s` with each link construct replaced by its numbered placeholder.
pub open spec fn protect_links(s: Seq<char>) -> Seq<char> {
    protect_from(s, 0, 0)
}

/// The link constructs of `s`, in the order of appearance.
pub open spec fn link_fragments(s: Seq<char>) -> Seq<Seq<char>> {
    fragments_from(s, 0)
}

/// How many link constructs `s` holds.
pub open spec fn link_count(s: Seq<char>) -> nat {
    link_count_from(s, 0)
}

/// `s` with each link construct written in the target form.
pub open spec fn rewrite_links(s: Seq<char>) -> Seq<char> {
    rewrite_from(s, 0)
}

/// The characters that the target markup reserves.
pub open spec fn is_special(c: char) -> bool {
    c == '_' || c == '*' || c == '(' || c == ')' || c == '~' || c == '`' || c == '>' || c == '#'
        || c == '-' || c == '|' || c == '{' || c == '}' || c == '.' || c == '!'
}

/// One character, escaped.
pub open spec fn escape_char(c: char) -> Seq<char> {
    if is_special(c) {
        seq!['\\', c]
    } else {
        seq![c]
    }
}

/// `s` with a backslash before each reserved character.
pub open spec fn escaped(s: Seq<char>) -> Seq<char>
    decreases s.len(),
{
    if s.len() == 0 {
        Seq::empty()
    } else {
        escaped(s.drop_last()) + escape_char(s.last())
    }
}

/// `s[i..]` with the placeholders put back: scanning left to right, the
/// placeholder of index `next`, the first fragment not yet restored, is
/// replaced by `frags[next]`, and the scan then looks for the one after it.
/// Placeholders are found in the order they were handed out, so the
/// placeholder of one index is never taken for the start of another.
pub open spec fn restore_from(s: Seq<char>, i: int, frags: Seq<Seq<char>>, next: nat) -> Seq<char>
    decreases s.len() - i,
{
    if i < 0 || i >= s.len() {
        Seq::empty()
    } else if next < frags.len() && occurs_at(s, i, placeholder(next)) && placeholder(next).len() > 0 {
        frags[next as int] + restore_from(s, i + placeholder(next).len(), frags, next + 1)
    } else {
        seq![s[i]] + restore_from(s, i + 1, frags, next)
    }
}

/// `s` with each placeholder put back as its fragment, in order.
pub open spec fn restored(s: Seq<char>, frags: Seq<Seq<char>>) -> Seq<char> {
    restore_from(s, 0, frags, 0)
}

/// The notice that takes the place of an embedded video.
pub open spec fn video_notice() -> Seq<char> {
    "(This update contains video. To watch the video, go to the official website.)"@
}

/// `s` without tables and images, and with video previews replaced by the
/// notice. An image block closes at `[/img]` or at its escaped-slash form
/// `[\/img]`, whichever comes first.
pub open spec fn without_media(s: Seq<char>) -> Seq<char> {
    let a = replace_blocks(s, "[table]"@, "[/table]"@, "[/table]"@, Seq::empty());
    let b = replace_blocks(a, "[img]"@, "[/img]"@, "[\\/img]"@, Seq::empty());
    replace_blocks(b, "[previewyoutube"@, "]"@, "]"@, video_notice())
}

/// `s` with the structural tags mapped to the target markup.
pub open spec fn structural(s: Seq<char>) -> Seq<char> {
    let s = replace_lit(s, "[/h1]"@, "*"@);
    let s = replace_lit(s, "[\\/h1]"@, "*"@);
    let s = replace_lit(s, "[/h2]"@, "*"@);
    let s = replace_lit(s, "[\\/h2]"@, "*"@);
    let s = replace_lit(s, "[/h3]"@, "*"@);
    let s = replace_lit(s, "[\\/h3]"@, "*"@);
    let s = replace_lit(s, "[/h5]"@, "*"@);
    let s = replace_lit(s, "[\\/h5]"@, "*"@);
    let s = replace_lit(s, "[list]"@, ""@);
    let s = replace_lit(s, "[/list]"@, ""@);
    let s = replace_lit(s, "[*][b]"@, "\u{1F538}*"@);
    let s = replace_lit(s, "[\\/b]"@, "*"@);
    let s = replace_lit(s, "[*]"@, "\u{1F4CC}"@);
    let s = replace_lit(s, "[strike]"@, "~"@);
    let s = replace_lit(s, "[\\/strike]"@, "~"@);
    replace_lit(s, "[\\/previewyoutube]"@, ""@)
}

/// The transcoding of an event body.
pub open spec fn transcoded(body: Seq<char>) -> Seq<char> {
    let plain = without_media(body);
    let marked = escaped(structural(protect_links(plain)));
    rewrite_links(restored(marked, link_fragments(plain)))
}


/// The first position at or after `j` that holds `c`, or the length of `s`.
fn first_index_from(s: &Vec<char>, j: usize, c: char) -> (r: usize)
    requires
        j <= s@.len(),
    ensures
        r as int == first_from(s@, j as int, c),
{
    let mut k: usize = j;
    while k < s.len() && s[k] != c
        invariant
            j <= k <= s@.len(),
            first_from(s@, j as int, c) == first_from(s@, k as int, c),
        decreases s@.len() - k,
    {
        k += 1;
    }
    k
}

/// The tags that delimit a link construct.
struct LinkTags {
    open: Vec<char>,
    close: Vec<char>,
}

impl LinkTags {
    spec fn wf(&self) -> bool {
        self.open@ == url_open() && self.close@ == url_close()
    }

    fn new() -> (r: LinkTags)
        ensures
            r.wf(),
    {
        LinkTags { open: chars_of("[url="), close: chars_of("[/url]") }
    }

    /// The link construct that starts at `i`, if one does.
    fn find(&self, s: &Vec<char>, i: usize) -> (r: Option<(usize, usize, usize)>)
        requires
            self.wf(),
        ensures
            match r {
                Some((k, m, e)) => link_at(s@, i as int) == Some((k as int, m as int, e as int)),
                None => link_at(s@, i as int) is None,
            },
            r matches Some((k, m, e)) ==> i < k < m <= e <= s@.len(),
    {
        let n = s.len();
        if !matches_at(s, i, &self.open) {
            return None;
        }
        let t = i + self.open.len();
        let k = first_index_from(s, t, ']');
        if !(t < k && k < n) {
            return None;
        }
        let m = first_index_from(s, k + 1, '[');
        if !(k + 1 < m) || !matches_at(s, m, &self.close) {
            return None;
        }
        Some((k, m, m + self.close.len()))
    }
}

/// Appends the decimal writing of `n`.
fn push_decimal(out: &mut Vec<char>, n: usize)
    ensures
        final(out)@ == old(out)@ + decimal(n as nat),
    decreases n,
{
    if n >= 10 {
        push_decimal(out, n / 10);
    }
    let d = n % 10;
    let c = if d == 0 { '0' }
        else if d == 1 { '1' }
        else if d == 2 { '2' }
        else if d == 3 { '3' }
        else if d == 4 { '4' }
        else if d == 5 { '5' }
        else if d == 6 { '6' }
        else if d == 7 { '7' }
        else if d == 8 { '8' }
        else { '9' };
    out.push(c);
    assert(final(out)@ =~= old(out)@ + decimal(n as nat));
}

/// The placeholder for the link fragment of index `n`.
fn placeholder_chars(n: usize) -> (r: Vec<char>)
    ensures
        r@ == placeholder(n as nat),
{
    let mut r = chars_of("SomeReplacement");
    push_decimal(&mut r, n);
    r
}

/// Replaces each link construct of `s` by its numbered placeholder; returns
/// the text and the constructs taken out.
pub fn extract_links(s: &Vec<char>) -> (r: (Vec<char>, Vec<Vec<char>>))
    ensures
        r.0@ == protect_links(s@),
        r.1@.map_values(|f: Vec<char>| f@) == link_fragments(s@),
{
    let tags = LinkTags::new();
    let mut out: Vec<char> = Vec::new();
    let mut frags: Vec<Vec<char>> = Vec::new();
    let mut i: usize = 0;
    while i < s.len()
        invariant
            tags.wf(),
            i <= s@.len(),
            out@ + protect_from(s@, i as int, frags@.len()) == protect_links(s@),
            frags@.map_values(|f: Vec<char>| f@) + fragments_from(s@, i as int) == link_fragments(s@),
        decreases s@.len() - i,
    {
        let ghost before = out@;
        let ghost fbefore = frags@.map_values(|f: Vec<char>| f@);
        match tags.find(s, i) {
            Some((_k, _m, e)) => {
                let p = placeholder_chars(frags.len());
                out.extend_from_slice(p.as_slice());
                let mut frag: Vec<char> = Vec::new();
                let mut j: usize = i;
                while j < e
                    invariant
                        i <= j <= e <= s@.len(),
                        frag@ == s@.subrange(i as int, j as int),
                    decreases e - j,
                {
                    frag.push(s[j]);
                    j += 1;
                    assert(frag@ =~= s@.subrange(i as int, j as int));
                }
                let ghost fv = frag@;
                frags.push(frag);
                assert(frags@.map_values(|f: Vec<char>| f@) =~= fbefore.push(fv));
                assert(fbefore + (seq![fv] + fragments_from(s@, e as int))
                    =~= fbefore.push(fv) + fragments_from(s@, e as int));
                assert(before + (p@ + protect_from(s@, e as int, frags@.len()))
                    =~= out@ + protect_from(s@, e as int, frags@.len()));
                i = e;
            },
            None => {
                out.push(s[i]);
                assert(before + (seq![s@[i as int]] + protect_from(s@, i + 1, frags@.len()))
                    =~= out@ + protect_from(s@, i + 1, frags@.len()));
                i += 1;
            },
        }
    }
    assert(out@ + Seq::<char>::empty() =~= out@);
    let ghost fv = frags@.map_values(|f: Vec<char>| f@);
    assert(fv + Seq::<Seq<char>>::empty() =~= fv);
    (out, frags)
}

/// Writes each link construct `[url=TARGET]LABEL[/url]` of `s` as
/// `[LABEL](TARGET)`.
pub fn rewrite_link_constructs(s: &Vec<char>) -> (r: Vec<char>)
    ensures
        r@ == rewrite_links(s@),
{
    let tags = LinkTags::new();
    let mut out: Vec<char> = Vec::new();
    let mut i: usize = 0;
    while i < s.len()
        invariant
            tags.wf(),
            i <= s@.len(),
            out@ + rewrite_from(s@, i as int) == rewrite_links(s@),
        decreases s@.len() - i,
    {
        let ghost before = out@;
        match tags.find(s, i) {
            Some((k, m, e)) => {
                let ghost target_start = i + url_open().len();
                let t = i + tags.open.len();
                out.push('[');
                let mut j: usize = k + 1;
                while j < m
                    invariant
                        k + 1 <= j <= m <= s@.len(),
                        out@ == before + seq!['['] + s@.subrange(k + 1, j as int),
                    decreases m - j,
                {
                    out.push(s[j]);
                    j += 1;
                    assert(out@ =~= before + seq!['['] + s@.subrange(k + 1, j as int));
                }
                out.push(']');
                out.push('(');
                let ghost mid = out@;
                j = t;
                while j < k
                    invariant
                        t <= j <= k <= s@.len(),
                        out@ == mid + s@.subrange(t as int, j as int),
                    decreases k - j,
                {
                    out.push(s[j]);
                    j += 1;
                    assert(out@ =~= mid + s@.subrange(t as int, j as int));
                }
                out.push(')');
                assert(out@ =~= before + (seq!['['] + s@.subrange(k + 1, m as int) + seq![']', '(']
                    + s@.subrange(target_start, k as int) + seq![')']));
                assert(before + (seq!['['] + s@.subrange(k + 1, m as int) + seq![']', '(']
                    + s@.subrange(target_start, k as int) + seq![')'] + rewrite_from(s@, e as int))
                    =~= out@ + rewrite_from(s@, e as int));
                i = e;
            },
            None => {
                out.push(s[i]);
                assert(before + (seq![s@[i as int]] + rewrite_from(s@, i + 1))
                    =~= out@ + rewrite_from(s@, i + 1));
                i += 1;
            },
        }
    }
    assert(out@ + Seq::<char>::empty() =~= out@);
    out
}


/// Whether the target markup reserves `c`.
fn is_reserved(c: char) -> (r: bool)
    ensures
        r == is_special(c),
{
    c == '_' || c == '*' || c == '(' || c == ')' || c == '~' || c == '`' || c == '>' || c == '#'
        || c == '-' || c == '|' || c == '{' || c == '}' || c == '.' || c == '!'
}

/// `s` with a backslash before each reserved character.
pub fn escape_markup(s: &Vec<char>) -> (r: Vec<char>)
    ensures
        r@ == escaped(s@),
{
    let mut out: Vec<char> = Vec::new();
    let mut i: usize = 0;
    while i < s.len()
        invariant
            i <= s@.len(),
            out@ == escaped(s@.subrange(0, i as int)),
        decreases s@.len() - i,
    {
        let c = s[i];
        if is_reserved(c) {
            out.push('\\');
        }
        out.push(c);
        let ghost next = s@.subrange(0, i + 1);
        assert(next.drop_last() =~= s@.subrange(0, i as int));
        assert(out@ =~= escaped(next));
        i += 1;
    }
    assert(s@.subrange(0, s@.len() as int) =~= s@);
    out
}

/// `s` with each occurrence of `pat` replaced by `rep`.
fn replace_str(s: &Vec<char>, pat: &str, rep: &str) -> (r: Vec<char>)
    ensures
        r@ == replace_lit(s@, pat@, rep@),
{
    replace_all_lit(s, &chars_of(pat), &chars_of(rep))
}

/// `s` with the structural tags mapped to the target markup.
pub fn map_structural(s: &Vec<char>) -> (r: Vec<char>)
    ensures
        r@ == structural(s@),
{
    let t = replace_str(s, "[/h1]", "*");
    let t = replace_str(&t, "[\\/h1]", "*");
    let t = replace_str(&t, "[/h2]", "*");
    let t = replace_str(&t, "[\\/h2]", "*");
    let t = replace_str(&t, "[/h3]", "*");
    let t = replace_str(&t, "[\\/h3]", "*");
    let t = replace_str(&t, "[/h5]", "*");
    let t = replace_str(&t, "[\\/h5]", "*");
    let t = replace_str(&t, "[list]", "");
    let t = replace_str(&t, "[/list]", "");
    let t = replace_str(&t, "[*][b]", "\u{1F538}*");
    let t = replace_str(&t, "[\\/b]", "*");
    let t = replace_str(&t, "[*]", "\u{1F4CC}");
    let t = replace_str(&t, "[strike]", "~");
    let t = replace_str(&t, "[\\/strike]", "~");
    replace_str(&t, "[\\/previewyoutube]", "")
}

proof fn lemma_decimal_len(n: nat)
    ensures
        decimal(n).len() >= 1,
    decreases n,
{
    if n >= 10 {
        lemma_decimal_len(n / 10);
    }
}

/// `s` with each placeholder put back as its fragment, in order.
fn restore_chars(s: &Vec<char>, frags: &Vec<Vec<char>>) -> (r: Vec<char>)
    ensures
        r@ == restored(s@, frags@.map_values(|f: Vec<char>| f@)),
{
    let ghost fv = frags@.map_values(|f: Vec<char>| f@);
    let n = s.len();
    let mut out: Vec<char> = Vec::new();
    let mut i: usize = 0;
    let mut next: usize = 0;
    let mut ph = placeholder_chars(0);
    while i < n
        invariant
            n == s@.len(),
            i <= n,
            next <= frags@.len(),
            ph@ == placeholder(next as nat),
            fv == frags@.map_values(|f: Vec<char>| f@),
            out@ + restore_from(s@, i as int, fv, next as nat) == restored(s@, fv),
        decreases n - i,
    {
        let ghost before = out@;
        proof {
            lemma_decimal_len(next as nat);
        }
        if next < frags.len() && matches_at(s, i, &ph) {
            out.extend_from_slice(frags[next].as_slice());
            assert(out@ =~= before + fv[next as int]);
            assert(before + (fv[next as int] + restore_from(s@, i + ph@.len(), fv, (next + 1) as nat))
                =~= out@ + restore_from(s@, i + ph@.len(), fv, (next + 1) as nat));
            i = i + ph.len();
            next = next + 1;
            ph = placeholder_chars(next);
        } else {
            out.push(s[i]);
            assert(before + (seq![s@[i as int]] + restore_from(s@, i + 1, fv, next as nat))
                =~= out@ + restore_from(s@, i + 1, fv, next as nat));
            i += 1;
        }
    }
    assert(out@ + Seq::<char>::empty() =~= out@);
    out
}

/// Puts the link fragments back in place of their placeholders: scanning
/// left to right, placeholder `k` is replaced by `found_fragments[k]`, in
/// the order the placeholders were handed out.
pub fn restore_links(replaced_text: &str, found_fragments: &[String]) -> (r: String)
    ensures
        r@ == restored(replaced_text@, views(found_fragments@)),
{
    let mut frags: Vec<Vec<char>> = Vec::new();
    let mut k: usize = 0;
    while k < found_fragments.len()
        invariant
            k <= found_fragments@.len(),
            frags@.map_values(|f: Vec<char>| f@) == views(found_fragments@).subrange(0, k as int),
        decreases found_fragments@.len() - k,
    {
        let ghost before = frags@.map_values(|f: Vec<char>| f@);
        let f = chars_of(found_fragments[k].as_str());
        assert(f@ == views(found_fragments@)[k as int]);
        frags.push(f);
        assert(frags@.map_values(|f: Vec<char>| f@) =~= before.push(f@));
        k += 1;
        assert(frags@.map_values(|f: Vec<char>| f@) =~= views(found_fragments@).subrange(0, k as int));
    }
    assert(views(found_fragments@).subrange(0, k as int) =~= views(found_fragments@));
    string_of(&restore_chars(&chars_of(replaced_text), &frags))
}

/// Transcodes an event body from the feed's bracket markup to the escaped
/// target markup: media blocks are removed, links are set aside while the
/// rest is mapped and escaped, then restored and written in the target form.
pub fn process_body(body_str: &str) -> (r: String)
    ensures
        r@ == transcoded(body_str@),
{
    proof {
        reveal_strlit("[table]");
        reveal_strlit("[img]");
        reveal_strlit("[previewyoutube");
    }
    let body = chars_of(body_str);
    let none: Vec<char> = Vec::new();
    let open = chars_of("[table]");
    let closers = Closers { close: chars_of("[/table]"), alt: chars_of("[/table]") };
    let a = replace_all_blocks(&body, &open, &closers, &none);
    let open = chars_of("[img]");
    let closers = Closers { close: chars_of("[/img]"), alt: chars_of("[\\/img]") };
    let b = replace_all_blocks(&a, &open, &closers, &none);
    let open = chars_of("[previewyoutube");
    let closers = Closers { close: chars_of("]"), alt: chars_of("]") };
    let notice = chars_of(
        "(This update contains video. To watch the video, go to the official website.)",
    );
    let c = replace_all_blocks(&b, &open, &closers, &notice);
    assert(none@ =~= Seq::<char>::empty());
    let (protected, frags) = extract_links(&c);
    let marked = escape_markup(&map_structural(&protected));
    let back = restore_chars(&marked, &frags);
    string_of(&rewrite_link_constructs(&back))
}


/// Escaping goes character by character: the escaping of a concatenation is
/// the concatenation of the escapings.
pub proof fn lemma_escaped_concat(a: Seq<char>, b: Seq<char>)
    ensures
        escaped(a + b) == escaped(a) + escaped(b),
    decreases b.len(),
{
    if b.len() == 0 {
        assert(a + b =~= a);
        assert(escaped(a) + escaped(b) =~= escaped(a));
    } else {
        lemma_escaped_concat(a, b.drop_last());
        assert((a + b).drop_last() =~= a + b.drop_last());
        assert((a + b).last() == b.last());
        assert(escaped(a) + escaped(b.drop_last()) + escape_char(b.last())
            =~= escaped(a) + (escaped(b.drop_last()) + escape_char(b.last())));
    }
}

/// Text without reserved characters is left as it is.
pub proof fn lemma_escaped_plain(s: Seq<char>)
    requires
        forall|i: int| 0 <= i < s.len() ==> !is_special(#[trigger] s[i]),
    ensures
        escaped(s) == s,
    decreases s.len(),
{
    if s.len() > 0 {
        lemma_escaped_plain(s.drop_last());
        assert(!is_special(s[s.len() - 1]));
        assert(s.drop_last().push(s.last()) =~= s);
    }
}

proof fn lemma_escaped_one(c: char)
    ensures
        escaped(seq![c]) == escape_char(c),
{
    assert(seq![c].drop_last() =~= Seq::<char>::empty());
    assert(escaped(Seq::<char>::empty()) == Seq::<char>::empty());
    assert(escaped(seq![c]) =~= escape_char(c));
}

/// Escaping already escaped text gives each reserved character of the
/// unescaped text exactly one more backslash and leaves every other character,
/// the backslash among them, as it is.
pub proof fn lemma_escaped_again(c: char)
    ensures
        !is_special('\\'),
        escaped(escape_char(c)) == (if is_special(c) { seq!['\\', '\\', c] } else { seq![c] }),
{
    let e = escape_char(c);
    if is_special(c) {
        lemma_escaped_concat(seq!['\\'], seq![c]);
        assert(seq!['\\'] + seq![c] =~= e);
        lemma_escaped_one('\\');
        lemma_escaped_one(c);
        assert(seq!['\\'] + seq!['\\', c] =~= seq!['\\', '\\', c]);
    } else {
        lemma_escaped_one(c);
    }
}

/// A fragment is the link construct found at some position of the text.
pub open spec fn is_link_of(s: Seq<char>, f: Seq<char>) -> bool {
    exists|i: int| #[trigger] link_at(s, i) matches Some((_k, _m, e)) && f == s.subrange(i, e)
}

proof fn lemma_fragments_count_from(s: Seq<char>, i: int)
    ensures
        fragments_from(s, i).len() == link_count_from(s, i),
        forall|t: int| 0 <= t < fragments_from(s, i).len() ==> is_link_of(s, #[trigger] fragments_from(s, i)[t]),
    decreases s.len() - i,
{
    if !(i < 0 || i >= s.len()) {
        match link_at(s, i) {
            Some((_k, _m, e)) => {
                lemma_fragments_count_from(s, e);
                let f = fragments_from(s, i);
                assert forall|t: int| 0 <= t < f.len() implies is_link_of(s, #[trigger] f[t]) by {
                    if t == 0 {
                        assert(link_at(s, i) matches Some((_k, _m, e)) && f[0] == s.subrange(i, e));
                    } else {
                        assert(f[t] == fragments_from(s, e)[t - 1]);
                    }
                }
            },
            None => lemma_fragments_count_from(s, i + 1),
        }
    }
}

proof fn lemma_no_links_from(s: Seq<char>, i: int, n: nat)
    requires
        0 <= i <= s.len(),
        link_count_from(s, i) == 0,
    ensures
        protect_from(s, i, n) == s.subrange(i, s.len() as int),
        rewrite_from(s, i) == s.subrange(i, s.len() as int),
        restore_from(s, i, Seq::empty(), n) == s.subrange(i, s.len() as int),
        fragments_from(s, i).len() == 0,
    decreases s.len() - i,
{
    if i < s.len() {
        match link_at(s, i) {
            Some((_k, _m, e)) => {},
            None => {
                lemma_no_links_from(s, i + 1, n);
                assert(seq![s[i]] + s.subrange(i + 1, s.len() as int) =~= s.subrange(i, s.len() as int));
                lemma_fragments_count_from(s, i);
            },
        }
    } else {
        assert(s.subrange(i, s.len() as int) =~= Seq::<char>::empty());
    }
}

/// Link extraction is counted: as many fragments are set aside as a scan of
/// the text finds link constructs, each of them one of those constructs;
/// where it finds none, the text is left as it is, nothing is set aside, and
/// the final rewriting changes nothing.
pub proof fn lemma_link_fragments(s: Seq<char>)
    ensures
        link_fragments(s).len() == link_count(s),
        forall|t: int| 0 <= t < link_fragments(s).len() ==> is_link_of(s, #[trigger] link_fragments(s)[t]),
        link_count(s) == 0 ==> protect_links(s) == s && rewrite_links(s) == s
            && restored(s, link_fragments(s)) == s,
{
    lemma_fragments_count_from(s, 0);
    if link_count(s) == 0 {
        lemma_no_links_from(s, 0, 0);
        assert(link_fragments(s) =~= Seq::<Seq<char>>::empty());
        assert(s.subrange(0, s.len() as int) =~= s);
    }
}


proof fn lemma_decimal_digits(n: nat)
    ensures
        forall|i: int| 0 <= i < decimal(n).len() ==> '0' <= #[trigger] decimal(n)[i] <= '9',
    decreases n,
{
    if n >= 10 {
        lemma_decimal_digits(n / 10);
        assert forall|i: int| 0 <= i < decimal(n).len() implies '0' <= #[trigger] decimal(n)[i] <= '9' by {
            if i < decimal(n / 10).len() {
                assert(decimal(n)[i] == decimal(n / 10)[i]);
            }
        }
    }
}

/// A placeholder holds letters and digits only, so escaping leaves it
/// intact and restoration finds it again.
pub proof fn lemma_placeholder_survives_escaping(n: nat)
    ensures
        escaped(placeholder(n)) == placeholder(n),
{
    reveal_strlit("SomeReplacement");
    lemma_decimal_digits(n);
    let p = placeholder(n);
    assert forall|i: int| 0 <= i < p.len() implies !is_special(#[trigger] p[i]) by {
        if i >= placeholder_stem().len() {
            assert(p[i] == decimal(n)[i - placeholder_stem().len()]);
        }
    }
    lemma_escaped_plain(p);
}


/// `qs[k]`, then for each later `j` the placeholder of index `j - 1`
/// followed by `qs[j]`.
pub open spec fn with_placeholders(qs: Seq<Seq<char>>, k: int) -> Seq<char>
    decreases qs.len() - k,
{
    if k < 0 || k >= qs.len() {
        Seq::empty()
    } else if k == qs.len() - 1 {
        qs[k]
    } else {
        qs[k] + placeholder(k as nat) + with_placeholders(qs, k + 1)
    }
}

/// `qs[k]`, then for each later `j` the fragment `frags[j - 1]` followed by
/// `qs[j]`.
pub open spec fn with_fragments(qs: Seq<Seq<char>>, frags: Seq<Seq<char>>, k: int) -> Seq<char>
    decreases qs.len() - k,
{
    if k < 0 || k >= qs.len() {
        Seq::empty()
    } else if k == qs.len() - 1 {
        qs[k]
    } else {
        qs[k] + frags[k] + with_fragments(qs, frags, k + 1)
    }
}

/// No placeholder stem occurs in `q`.
pub open spec fn stem_free(q: Seq<char>) -> bool {
    forall|p: int| !#[trigger] occurs_at(q, p, placeholder_stem())
}

proof fn lemma_restore_shift(a: Seq<char>, b: Seq<char>, j: int, frags: Seq<Seq<char>>, next: nat)
    requires
        0 <= j <= b.len(),
    ensures
        restore_from(a + b, a.len() + j, frags, next) == restore_from(b, j, frags, next),
    decreases b.len() - j,
{
    let t = a + b;
    if j < b.len() {
        let p = placeholder(next);
        if a.len() + j + p.len() <= t.len() {
            assert(t.subrange(a.len() + j, a.len() + j + p.len()) =~= b.subrange(j, j + p.len()));
        }
        assert(t[a.len() + j] == b[j]);
        if next < frags.len() && occurs_at(b, j, p) && p.len() > 0 {
            lemma_restore_shift(a, b, j + p.len(), frags, next + 1);
        } else {
            lemma_restore_shift(a, b, j + 1, frags, next);
        }
    }
}

proof fn lemma_restore_skip(a: Seq<char>, b: Seq<char>, i: int, frags: Seq<Seq<char>>, next: nat)
    requires
        0 <= i <= a.len(),
        forall|p: int| i <= p < a.len() ==> !#[trigger] occurs_at(a + b, p, placeholder(next)),
    ensures
        restore_from(a + b, i, frags, next) == a.subrange(i, a.len() as int) + restore_from(b, 0, frags, next),
    decreases a.len() - i,
{
    if i == a.len() {
        lemma_restore_shift(a, b, 0, frags, next);
        assert(a.subrange(i, a.len() as int) + restore_from(b, 0, frags, next) =~= restore_from(b, 0, frags, next));
    } else {
        lemma_restore_skip(a, b, i + 1, frags, next);
        assert((a + b)[i] == a[i]);
        assert(seq![a[i]] + (a.subrange(i + 1, a.len() as int) + restore_from(b, 0, frags, next))
            =~= a.subrange(i, a.len() as int) + restore_from(b, 0, frags, next));
    }
}

/// No placeholder starts inside a stem-free text that a placeholder follows.
proof fn lemma_no_placeholder_in(q: Seq<char>, rest: Seq<char>, m: nat)
    requires
        stem_free(q),
        rest.len() > 0 ==> rest[0] == 'S',
    ensures
        forall|p: int| 0 <= p < q.len() ==> !#[trigger] occurs_at(q + rest, p, placeholder(m)),
{
    reveal_strlit("SomeReplacement");
    let stem = placeholder_stem();
    let t = q + rest;
    assert forall|p: int| 0 <= p < q.len() implies !#[trigger] occurs_at(t, p, placeholder(m)) by {
        if occurs_at(t, p, placeholder(m)) {
            let ph = placeholder(m);
            assert(t.subrange(p, p + ph.len()) == ph);
            if p + stem.len() <= q.len() {
                assert forall|d: int| 0 <= d < stem.len() implies q.subrange(p, p + stem.len())[d] == stem[d] by {
                    assert(t.subrange(p, p + ph.len())[d] == ph[d]);
                    assert(ph[d] == stem[d]);
                    assert(t[p + d] == q[p + d]);
                }
                assert(q.subrange(p, p + stem.len()) =~= stem);
                assert(occurs_at(q, p, stem));
            } else {
                let d = q.len() - p;
                assert(0 < d < stem.len());
                assert(t.subrange(p, p + ph.len())[d] == ph[d]);
                assert(ph[d] == stem[d]);
                assert(t[q.len() as int] == rest[0]);
                assert(stem[d] != 'S');
            }
        }
    }
}

proof fn lemma_restore_woven(qs: Seq<Seq<char>>, frags: Seq<Seq<char>>, k: int)
    requires
        0 <= k < qs.len(),
        frags.len() + 1 == qs.len(),
        forall|j: int| 0 <= j < qs.len() ==> stem_free(#[trigger] qs[j]),
    ensures
        restore_from(with_placeholders(qs, k), 0, frags, k as nat) == with_fragments(qs, frags, k),
    decreases qs.len() - k,
{
    reveal_strlit("SomeReplacement");
    let q = qs[k];
    if k == qs.len() - 1 {
        lemma_no_placeholder_in(q, Seq::empty(), k as nat);
        assert(q + Seq::<char>::empty() =~= q);
        lemma_restore_skip(q, Seq::empty(), 0, frags, k as nat);
        assert(q.subrange(0, q.len() as int) =~= q);
        assert(restore_from(Seq::<char>::empty(), 0, frags, k as nat) =~= Seq::<char>::empty());
        assert(q + Seq::<char>::empty() =~= q);
    } else {
        let ph = placeholder(k as nat);
        let rest = ph + with_placeholders(qs, k + 1);
        lemma_decimal_len(k as nat);
        assert(rest[0] == ph[0]);
        assert(ph[0] == placeholder_stem()[0]);
        lemma_no_placeholder_in(q, rest, k as nat);
        assert(with_placeholders(qs, k) =~= q + rest);
        lemma_restore_skip(q, rest, 0, frags, k as nat);
        assert(q.subrange(0, q.len() as int) =~= q);
        assert(rest.subrange(0, ph.len() as int) =~= ph);
        lemma_restore_shift(ph, with_placeholders(qs, k + 1), 0, frags, (k + 1) as nat);
        lemma_restore_woven(qs, frags, k + 1);
        assert(restore_from(rest, 0, frags, k as nat)
            == frags[k] + restore_from(rest, ph.len() as int, frags, (k + 1) as nat));
        assert(q + (frags[k] + with_fragments(qs, frags, k + 1)) =~= with_fragments(qs, frags, k));
    }
}

/// Restoration is exact for any number of fragments: in a text made of
/// stem-free pieces with the placeholders `0, 1, ..., n - 1` between them,
/// each placeholder is replaced by its own fragment, verbatim and in its own
/// slot, and the pieces are kept.
pub proof fn lemma_restore_round_trip(qs: Seq<Seq<char>>, frags: Seq<Seq<char>>)
    requires
        frags.len() + 1 == qs.len(),
        forall|j: int| 0 <= j < qs.len() ==> stem_free(#[trigger] qs[j]),
    ensures
        restored(with_placeholders(qs, 0), frags) == with_fragments(qs, frags, 0),
{
    lemma_restore_woven(qs, frags, 0);
}

} // verus!
