//! Tag extraction from Stable Diffusion generation info, and the tag-name
//! length limit of Immich.

use crate::pattern::{captures_group1, replace_all, CompiledPattern};
use crate::text::{chars_of, push_char, collapse_range, string_of, string_of_range, trim_bounds};
use vstd::prelude::*;
use vstd::utf8::{decode_utf8, encode_utf8, encode_utf8_decode_utf8, is_char_boundary};

verus! {

// ---------------------------------------------------------------------------
// Weighted groups: `(tag:1.2)` written in the prompt.
// ---------------------------------------------------------------------------

/// The number of consecutive backslashes right before position `i` of `s`.
pub open spec fn backslash_run(s: Seq<char>, i: int) -> nat
    decreases i,
{
    if i <= 0 || i > s.len() {
        0
    } else if s[i - 1] == '\\' {
        backslash_run(s, i - 1) + 1
    } else {
        0
    }
}

/// The character at `i` is escaped: an odd number of backslashes precede it.
pub open spec fn escaped(s: Seq<char>, i: int) -> bool {
    backslash_run(s, i) % 2 == 1
}

/// The first unescaped `)` at or after position `j`.
pub open spec fn closing_paren(s: Seq<char>, j: int) -> Option<int>
    decreases s.len() - j,
{
    if j < 0 || j >= s.len() {
        None
    } else if s[j] == ')' && !escaped(s, j) {
        Some(j)
    } else {
        closing_paren(s, j + 1)
    }
}

/// The position of the last `c` in `s`.
pub open spec fn last_index_of(s: Seq<char>, c: char) -> Option<int>
    decreases s.len(),
{
    if s.len() == 0 {
        None
    } else if s.last() == c {
        Some(s.len() - 1)
    } else {
        last_index_of(s.drop_last(), c)
    }
}

/// A weight is made of ASCII digits and dots only (it may be empty).
pub open spec fn weight_text(w: Seq<char>) -> bool {
    forall|i: int| 0 <= i < w.len() ==> ('0' <= #[trigger] w[i] <= '9' || w[i] == '.')
}

/// The tag of the text between a group's parentheses: the part before its
/// last `:`, trimmed, provided that part is not empty and the part after the
/// colon is a weight.
pub open spec fn group_tag(content: Seq<char>) -> Option<Seq<char>> {
    match last_index_of(content, ':') {
        None => None,
        Some(k) => if content.take(k).len() > 0 && weight_text(content.skip(k + 1)) {
            Some(crate::text::trimmed(content.take(k)))
        } else {
            None
        },
    }
}

/// The weighted group that opens at `start`: its tag and the position just
/// after its closing parenthesis.
pub open spec fn weighted_group(s: Seq<char>, start: int) -> Option<(Seq<char>, int)> {
    match closing_paren(s, start + 1) {
        None => None,
        Some(j) => match group_tag(s.subrange(start + 1, j)) {
            None => None,
            Some(t) => Some((t, j + 1)),
        },
    }
}

pub proof fn lemma_closing_paren_bounds(s: Seq<char>, j: int)
    ensures
        closing_paren(s, j) matches Some(k) ==> 0 <= j <= k < s.len() && s[k] == ')' && !escaped(
            s,
            k,
        ),
    decreases s.len() - j,
{
    if 0 <= j < s.len() && !(s[j] == ')' && !escaped(s, j)) {
        lemma_closing_paren_bounds(s, j + 1);
    }
}

/// Scanning `s` from position `i`: the tags of the weighted groups met (empty
/// tags left out), and the text with those groups taken out.
pub open spec fn weighted_scan(s: Seq<char>, i: int) -> (Seq<Seq<char>>, Seq<char>)
    decreases s.len() - i,
{
    if i < 0 || i >= s.len() {
        (seq![], seq![])
    } else if s[i] == '(' && !escaped(s, i) && weighted_group(s, i) is Some {
        let (tag, next) = weighted_group(s, i)->0;
        proof {
            lemma_closing_paren_bounds(s, i + 1);
        }
        let rest = weighted_scan(s, next);
        (if tag.len() > 0 {
            seq![tag] + rest.0
        } else {
            rest.0
        }, rest.1)
    } else {
        let rest = weighted_scan(s, i + 1);
        (rest.0, seq![s[i]] + rest.1)
    }
}

/// Whether the character at `index` is escaped by backslashes before it.
fn is_escaped(input: &Vec<char>, index: usize) -> (b: bool)
    requires
        index <= input.len(),
    ensures
        b == escaped(input@, index as int),
{
    let mut slash_count: usize = 0;
    let mut k = index;
    while k > 0 && input[k - 1] == '\\'
        invariant
            k <= index <= input.len(),
            slash_count + k == index,
            backslash_run(input@, index as int) == slash_count + backslash_run(input@, k as int),
        decreases k,
    {
        k -= 1;
        slash_count += 1;
    }
    slash_count % 2 == 1
}

/// The last position of `c` in `input[from..to]`, counted from `from`.
fn last_index_in(input: &Vec<char>, from: usize, to: usize, c: char) -> (r: Option<usize>)
    requires
        from <= to <= input.len(),
    ensures
        r matches Some(k) ==> from + k < to && last_index_of(
            input@.subrange(from as int, to as int),
            c,
        ) == Some(k as int),
        r is None ==> last_index_of(input@.subrange(from as int, to as int), c) is None,
{
    let mut hi = to;
    while hi > from
        invariant
            from <= hi <= to <= input.len(),
            last_index_of(input@.subrange(from as int, to as int), c) == last_index_of(
                input@.subrange(from as int, hi as int),
                c,
            ),
        decreases hi - from,
    {
        let ghost t = input@.subrange(from as int, hi as int);
        assert(t.drop_last() =~= input@.subrange(from as int, hi - 1));
        if input[hi - 1] == c {
            return Some(hi - 1 - from);
        }
        hi -= 1;
    }
    None
}

/// Whether `input[from..to]` is a weight.
fn is_weight_text(input: &Vec<char>, from: usize, to: usize) -> (b: bool)
    requires
        from <= to <= input.len(),
    ensures
        b == weight_text(input@.subrange(from as int, to as int)),
{
    let ghost w = input@.subrange(from as int, to as int);
    let mut i = from;
    while i < to
        invariant
            from <= i <= to <= input.len(),
            w == input@.subrange(from as int, to as int),
            forall|k: int| 0 <= k < i - from ==> ('0' <= #[trigger] w[k] <= '9' || w[k] == '.'),
        decreases to - i,
    {
        let ch = input[i];
        if !(('0' <= ch && ch <= '9') || ch == '.') {
            assert(w[i - from] == ch);
            return false;
        }
        i += 1;
    }
    true
}

/// Whether `input[tag_lo..colon]` and `input[colon + 1..end]` make a valid
/// tag and weight: the tag is not empty and the weight is digits and dots.
fn tag_weight_is_valid(input: &Vec<char>, tag_lo: usize, colon: usize, end: usize) -> (b: bool)
    requires
        tag_lo <= colon < end <= input.len(),
    ensures
        b == (colon > tag_lo && weight_text(input@.subrange(colon + 1, end as int))),
{
    colon > tag_lo && is_weight_text(input, colon + 1, end)
}

/// Parses a weighted group at `start`, returning its tag and the position
/// just after the group; `None` when no weighted group opens there.
fn parse_weighted_group(input: &Vec<char>, start: usize) -> (r: Option<(String, usize)>)
    requires
        start < input.len(),
    ensures
        input@[start as int] != '(' ==> r is None,
        input@[start as int] == '(' ==> (r matches Some((tag, next)) ==> weighted_group(
            input@,
            start as int,
        ) == Some((tag@, next as int))),
        input@[start as int] == '(' ==> (r is None ==> weighted_group(input@, start as int) is None),
{
    if input[start] != '(' {
        return None;
    }
    let mut index = start + 1;
    while index < input.len()
        invariant
            start < index <= input.len(),
            input@[start as int] == '(',
            closing_paren(input@, start + 1) == closing_paren(input@, index as int),
        decreases input.len() - index,
    {
        if input[index] == ')' && !is_escaped(input, index) {
            let content_lo = start + 1;
            match last_index_in(input, content_lo, index, ':') {
                Some(k) => {
                    let ghost content = input@.subrange(content_lo as int, index as int);
                    assert(content.take(k as int) =~= input@.subrange(
                        content_lo as int,
                        content_lo + k,
                    ));
                    assert(content.skip(k + 1) =~= input@.subrange(
                        content_lo + k + 1,
                        index as int,
                    ));
                    if tag_weight_is_valid(input, content_lo, content_lo + k, index) {
                        let (lo, hi) = trim_bounds(input, content_lo, content_lo + k);
                        let tag = string_of_range(input, lo, hi);
                        return Some((tag, index + 1));
                    }
                    return None;
                },
                None => {
                    return None;
                },
            }
        }
        index += 1;
    }
    None
}

/// Takes the weighted groups out of `input`: returns their tags (empty ones
/// left out) and the remaining text.
fn extract_weighted_tags(input: &Vec<char>) -> (r: (Vec<String>, Vec<char>))
    ensures
        (r.0.deep_view(), r.1@) == weighted_scan(input@, 0),
{
    let mut tags: Vec<String> = Vec::new();
    let mut output: Vec<char> = Vec::new();
    let mut index: usize = 0;
    while index < input.len()
        invariant
            index <= input.len(),
            ({
                let rest = weighted_scan(input@, index as int);
                (tags.deep_view() + rest.0, output@ + rest.1) == weighted_scan(input@, 0)
            }),
        decreases input.len() - index,
    {
        let ch = input[index];
        if ch == '(' && !is_escaped(input, index) {
            if let Some((tag, next)) = parse_weighted_group(input, index) {
                proof {
                    lemma_closing_paren_bounds(input@, index + 1);
                }
                let ghost old_tags = tags.deep_view();
                if !tag.as_str().is_empty() {
                    tags.push(tag);
                    assert(tags.deep_view() =~= old_tags.push(tag@));
                }
                index = next;
                continue;
            }
        }
        let ghost old_out = output@;
        output.push(ch);
        assert(output@ =~= old_out + seq![ch]);
        index += 1;
    }
    (tags, output)
}


// ---------------------------------------------------------------------------
// Comma-separated parts.
// ---------------------------------------------------------------------------

/// The pieces of `s` between occurrences of `sep`, as `str::split` gives them.
pub open spec fn split_on(s: Seq<char>, sep: char) -> Seq<Seq<char>>
    decreases s.len(),
{
    match last_index_of(s, sep) {
        None => seq![s],
        Some(k) => {
            proof {
                lemma_last_index_of_bounds(s, sep);
            }
            split_on(s.take(k), sep).push(s.skip(k + 1))
        },
    }
}

pub proof fn lemma_last_index_of_bounds(s: Seq<char>, c: char)
    ensures
        last_index_of(s, c) matches Some(k) ==> 0 <= k < s.len() && s[k] == c && forall|j: int|
            k < j < s.len() ==> s[j] != c,
        last_index_of(s, c) is None ==> forall|j: int| 0 <= j < s.len() ==> s[j] != c,
    decreases s.len(),
{
    if s.len() > 0 && s.last() != c {
        lemma_last_index_of_bounds(s.drop_last(), c);
        assert forall|j: int| 0 <= j < s.len() - 1 implies s[j] == s.drop_last()[j] by {}
    }
}

/// A comma part as a tag: trimmed, with inner runs of white space made one space.
pub open spec fn cleaned_part(part: Seq<char>) -> Seq<char> {
    crate::text::collapse_white_space(crate::text::trimmed(part))
}

/// The non-empty cleaned parts, in order.
pub open spec fn part_tags(parts: Seq<Seq<char>>) -> Seq<Seq<char>>
    decreases parts.len(),
{
    if parts.len() == 0 {
        seq![]
    } else {
        let rest = part_tags(parts.drop_last());
        if cleaned_part(parts.last()).len() > 0 {
            rest.push(cleaned_part(parts.last()))
        } else {
            rest
        }
    }
}

// ---------------------------------------------------------------------------
// LoRA references: `<lora:name:0.8>`.
// ---------------------------------------------------------------------------

/// The regex whose first group captures the name of a LoRA reference.
pub const LORA_PATTERN: &'static str = "<lora:([^>:]+):\\d+\\.?\\d*>";

/// The regex matching whole LoRA references, to take them out of the prompt.
pub const LORA_REMOVE_PATTERN: &'static str = "<lora:[^>]+:\\d+\\.?\\d*>";

/// `<lora:` + `name` + `>`.
pub open spec fn lora_tag(name: Seq<char>) -> Seq<char> {
    seq!['<', 'l', 'o', 'r', 'a', ':'] + name + seq!['>']
}

/// The trimmed name a capture gives (an absent group gives the empty name).
pub open spec fn capture_name(c: Option<Seq<char>>) -> Seq<char> {
    crate::text::trimmed(
        match c {
            Some(t) => t,
            None => seq![],
        },
    )
}

/// The LoRA tags of the captures whose trimmed name is not empty, in order.
pub open spec fn lora_tags(captures: Seq<Option<Seq<char>>>) -> Seq<Seq<char>>
    decreases captures.len(),
{
    if captures.len() == 0 {
        seq![]
    } else {
        let rest = lora_tags(captures.drop_last());
        let name = capture_name(captures.last());
        if name.len() > 0 {
            rest.push(lora_tag(name))
        } else {
            rest
        }
    }
}

// ---------------------------------------------------------------------------
// Putting the tags together.
// ---------------------------------------------------------------------------

/// `acc` with `t` added at the end unless it is already there.
pub open spec fn push_new(acc: Seq<Seq<char>>, t: Seq<char>) -> Seq<Seq<char>> {
    if acc.contains(t) {
        acc
    } else {
        acc.push(t)
    }
}

/// `s` with every repeated element dropped, first occurrences kept in order.
pub open spec fn dedup(s: Seq<Seq<char>>) -> Seq<Seq<char>>
    decreases s.len(),
{
    if s.len() == 0 {
        seq![]
    } else {
        push_new(dedup(s.drop_last()), s.last())
    }
}

/// Every tag the prompt yields, in order and with repeats: LoRA tags first,
/// then the tags of weighted groups, then the comma-separated parts of what
/// is left.
pub open spec fn tag_candidates(captures: Seq<Option<Seq<char>>>, stripped: Seq<char>) -> Seq<
    Seq<char>,
> {
    let scan = weighted_scan(stripped, 0);
    lora_tags(captures) + scan.0 + part_tags(split_on(scan.1, ','))
}

/// The tags of a prompt: its candidates without repeats.
pub open spec fn prompt_tags(captures: Seq<Option<Seq<char>>>, stripped: Seq<char>) -> Seq<
    Seq<char>,
> {
    dedup(tag_candidates(captures, stripped))
}

/// Whether `tags` holds `t`.
fn contains_tag(tags: &Vec<String>, t: &String) -> (b: bool)
    ensures
        b == tags.deep_view().contains(t@),
{
    let mut i: usize = 0;
    while i < tags.len()
        invariant
            i <= tags.len(),
            forall|k: int| 0 <= k < i ==> tags.deep_view()[k] != t@,
        decreases tags.len() - i,
    {
        if tags[i] == *t {
            assert(tags.deep_view()[i as int] == t@);
            return true;
        }
        i += 1;
    }
    false
}

/// Adds `t` to `tags` unless it is already there; `cands` is the ghost list
/// of everything offered so far.
fn add_tag(tags: &mut Vec<String>, t: String, Ghost(cands): Ghost<Seq<Seq<char>>>)
    requires
        old(tags).deep_view() == dedup(cands),
    ensures
        final(tags).deep_view() == dedup(cands.push(t@)),
{
    assert(cands.push(t@).drop_last() =~= cands);
    if !contains_tag(tags, &t) {
        let ghost before = tags.deep_view();
        tags.push(t);
        assert(tags.deep_view() =~= before.push(t@));
    }
}


/// The last separator in `s.take(i)` is the one at `p` (or there is none when
/// `p` is `-1`), given that no separator lies strictly between `p` and `i`.
proof fn lemma_last_separator(s: Seq<char>, c: char, p: int, i: int)
    requires
        -1 <= p < i <= s.len(),
        p >= 0 ==> s[p] == c,
        forall|j: int| p < j < i ==> s[j] != c,
    ensures
        last_index_of(s.take(i), c) == (if p >= 0 {
            Some(p)
        } else {
            None::<int>
        }),
    decreases i,
{
    if i > 0 && s[i - 1] != c {
        assert(s.take(i).drop_last() =~= s.take(i - 1));
        if p < i - 1 {
            lemma_last_separator(s, c, p, i - 1);
        } else {
            assert(s.take(i - 1).len() == 0);
        }
    } else if i == 0 {
        assert(s.take(0).len() == 0);
    }
}

/// The parts of `s` up to (not including) the separator at `start - 1`;
/// none when `start` is 0.
spec fn parts_before(s: Seq<char>, start: int) -> Seq<Seq<char>> {
    if start > 0 {
        split_on(s.take(start - 1), ',')
    } else {
        seq![]
    }
}

/// The parts of `s` up to `i`, given the last separator before `i` ends at `start`.
proof fn lemma_split_prefix(s: Seq<char>, start: int, i: int)
    requires
        0 <= start <= i <= s.len(),
        start > 0 ==> s[start - 1] == ',',
        forall|j: int| start <= j < i ==> s[j] != ',',
    ensures
        split_on(s.take(i), ',') == parts_before(s, start).push(s.subrange(start, i)),
{
    lemma_last_separator(s, ',', start - 1, i);
    if start > 0 {
        assert(s.take(i).take(start - 1) =~= s.take(start - 1));
        assert(s.take(i).skip(start) =~= s.subrange(start, i));
    } else {
        assert(s.take(i) =~= s.subrange(0, i));
    }
}

/// The `<lora:name>` tag for `name[lo..hi]`.
fn lora_tag_string(name: &Vec<char>, lo: usize, hi: usize) -> (t: String)
    requires
        lo <= hi <= name.len(),
    ensures
        t@ == lora_tag(name@.subrange(lo as int, hi as int)),
{
    let mut v: Vec<char> = vec!['<', 'l', 'o', 'r', 'a', ':'];
    let mut i = lo;
    while i < hi
        invariant
            lo <= i <= hi <= name.len(),
            v@ == seq!['<', 'l', 'o', 'r', 'a', ':'] + name@.subrange(lo as int, i as int),
        decreases hi - i,
    {
        v.push(name[i]);
        assert(name@.subrange(lo as int, i + 1) =~= name@.subrange(lo as int, i as int).push(
            name@[i as int],
        ));
        i += 1;
    }
    v.push('>');
    string_of(&v)
}

/// The tags of a prompt, given what the LoRA regexes found in it: the group-1
/// captures of `LORA_PATTERN`, and the prompt with `LORA_REMOVE_PATTERN`
/// matches taken out.
pub fn assemble_tags(lora_captures: &Vec<Option<String>>, stripped_prompt: &str) -> (tags: Vec<
    String,
>)
    ensures
        tags.deep_view() == prompt_tags(lora_captures.deep_view(), stripped_prompt@),
        no_repeats(tags.deep_view()),
        all_nonempty(tags.deep_view()),
{
    proof {
        lemma_prompt_tags_laws(lora_captures.deep_view(), stripped_prompt@);
    }
    let ghost caps = lora_captures.deep_view();
    let mut tags: Vec<String> = Vec::new();
    let ghost mut cands: Seq<Seq<char>> = seq![];

    let mut i: usize = 0;
    while i < lora_captures.len()
        invariant
            i <= lora_captures.len(),
            caps == lora_captures.deep_view(),
            cands == lora_tags(caps.take(i as int)),
            tags.deep_view() == dedup(cands),
        decreases lora_captures.len() - i,
    {
        let name: Vec<char> = match &lora_captures[i] {
            Some(text) => chars_of(text.as_str()),
            None => Vec::new(),
        };
        assert(name@ == (match caps[i as int] {
            Some(t) => t,
            None => seq![],
        }));
        let (lo, hi) = trim_bounds(&name, 0, name.len());
        assert(name@.subrange(0, name@.len() as int) =~= name@);
        assert(caps.take(i + 1).drop_last() =~= caps.take(i as int));
        if lo < hi {
            let t = lora_tag_string(&name, lo, hi);
            add_tag(&mut tags, t, Ghost(cands));
            proof {
                cands = cands.push(t@);
            }
        }
        i += 1;
    }
    assert(caps.take(lora_captures.len() as int) =~= caps);

    let chars = chars_of(stripped_prompt);
    let (weighted, rest) = extract_weighted_tags(&chars);
    let ghost lora_part = cands;
    let mut j: usize = 0;
    while j < weighted.len()
        invariant
            j <= weighted.len(),
            cands == lora_part + weighted.deep_view().take(j as int),
            tags.deep_view() == dedup(cands),
        decreases weighted.len() - j,
    {
        let t = weighted[j].clone();
        add_tag(&mut tags, t, Ghost(cands));
        proof {
            cands = cands.push(t@);
            assert(cands =~= lora_part + weighted.deep_view().take(j + 1));
        }
        j += 1;
    }
    assert(weighted.deep_view().take(weighted.len() as int) =~= weighted.deep_view());

    let ghost before_parts = cands;
    let n = rest.len();
    let mut start: usize = 0;
    let mut k: usize = 0;
    while k < n
        invariant
            start <= k <= n == rest.len(),
            start > 0 ==> rest@[start - 1] == ',',
            forall|m: int| start <= m < k ==> rest@[m] != ',',
            cands == before_parts + part_tags(parts_before(rest@, start as int)),
            tags.deep_view() == dedup(cands),
        decreases n - k,
    {
        if rest[k] == ',' {
            proof {
                lemma_split_prefix(rest@, start as int, k as int);
                assert(parts_before(rest@, k + 1) == split_on(rest@.take(k as int), ','));
                let ps = parts_before(rest@, start as int);
                assert(ps.push(rest@.subrange(start as int, k as int)).drop_last() =~= ps);
            }
            let (lo, hi) = trim_bounds(&rest, start, k);
            let cleaned = collapse_range(&rest, lo, hi);
            if cleaned.len() > 0 {
                let t = string_of(&cleaned);
                add_tag(&mut tags, t, Ghost(cands));
                proof {
                    cands = cands.push(t@);
                }
            }
            start = k + 1;
        }
        k += 1;
    }
    proof {
        lemma_split_prefix(rest@, start as int, n as int);
        assert(rest@.take(n as int) =~= rest@);
        let ps = parts_before(rest@, start as int);
        assert(ps.push(rest@.subrange(start as int, n as int)).drop_last() =~= ps);
    }
    let (lo, hi) = trim_bounds(&rest, start, n);
    let cleaned = collapse_range(&rest, lo, hi);
    if cleaned.len() > 0 {
        let t = string_of(&cleaned);
        add_tag(&mut tags, t, Ghost(cands));
        proof {
            cands = cands.push(t@);
        }
    }
    tags
}


// ---------------------------------------------------------------------------
// Laws of the tag list.
// ---------------------------------------------------------------------------

/// No element occurs twice.
pub open spec fn no_repeats(s: Seq<Seq<char>>) -> bool {
    forall|i: int, j: int| 0 <= i < j < s.len() ==> s[i] != s[j]
}

/// No element is empty.
pub open spec fn all_nonempty(s: Seq<Seq<char>>) -> bool {
    forall|i: int| 0 <= i < s.len() ==> (#[trigger] s[i]).len() > 0
}

/// Dropping repeats leaves no repeats and keeps exactly the same elements.
pub proof fn lemma_dedup(s: Seq<Seq<char>>)
    ensures
        no_repeats(dedup(s)),
        forall|t: Seq<char>| dedup(s).contains(t) <==> s.contains(t),
    decreases s.len(),
{
    if s.len() > 0 {
        let d = dedup(s.drop_last());
        lemma_dedup(s.drop_last());
        let x = s.last();
        let s0 = s.drop_last();
        assert forall|t: Seq<char>| dedup(s).contains(t) implies s.contains(t) by {
            let k = choose|k: int| 0 <= k < dedup(s).len() && dedup(s)[k] == t;
            if k < d.len() && dedup(s)[k] == d[k] {
                assert(d.contains(t));
                assert(s0.contains(t));
                let m = choose|m: int| 0 <= m < s0.len() && s0[m] == t;
                assert(s[m] == t);
            } else {
                assert(t == x);
                assert(s[s.len() - 1] == t);
            }
        }
        assert forall|t: Seq<char>| s.contains(t) implies dedup(s).contains(t) by {
            let k = choose|k: int| 0 <= k < s.len() && s[k] == t;
            if k < s.len() - 1 {
                assert(s0[k] == t);
                assert(s0.contains(t));
                assert(d.contains(t));
                let m = choose|m: int| 0 <= m < d.len() && d[m] == t;
                if !d.contains(x) {
                    assert(dedup(s)[m] == t);
                }
            } else {
                if !d.contains(x) {
                    assert(dedup(s)[d.len() as int] == t);
                }
            }
        }
        if !d.contains(s.last()) {
            assert forall|i: int, j: int| 0 <= i < j < dedup(s).len() implies dedup(s)[i] != dedup(
                s,
            )[j] by {
                if j == d.len() {
                    assert(d[i] == dedup(s)[i]);
                }
            }
        }
    }
}

proof fn lemma_lora_tags_nonempty(caps: Seq<Option<Seq<char>>>)
    ensures
        all_nonempty(lora_tags(caps)),
    decreases caps.len(),
{
    if caps.len() > 0 {
        lemma_lora_tags_nonempty(caps.drop_last());
    }
}

proof fn lemma_weighted_scan_nonempty(s: Seq<char>, i: int)
    ensures
        all_nonempty(weighted_scan(s, i).0),
    decreases s.len() - i,
{
    if 0 <= i < s.len() {
        if s[i] == '(' && !escaped(s, i) && weighted_group(s, i) is Some {
            lemma_closing_paren_bounds(s, i + 1);
            lemma_weighted_scan_nonempty(s, weighted_group(s, i).unwrap().1);
        } else {
            lemma_weighted_scan_nonempty(s, i + 1);
        }
    }
}

proof fn lemma_part_tags_nonempty(parts: Seq<Seq<char>>)
    ensures
        all_nonempty(part_tags(parts)),
    decreases parts.len(),
{
    if parts.len() > 0 {
        lemma_part_tags_nonempty(parts.drop_last());
    }
}

/// The tags of a prompt hold no repeats and no empty tag, and they are exactly
/// the candidates it offers.
pub proof fn lemma_prompt_tags_laws(captures: Seq<Option<Seq<char>>>, stripped: Seq<char>)
    ensures
        no_repeats(prompt_tags(captures, stripped)),
        all_nonempty(prompt_tags(captures, stripped)),
        forall|t: Seq<char>|
            prompt_tags(captures, stripped).contains(t) <==> tag_candidates(
                captures,
                stripped,
            ).contains(t),
{
    let c = tag_candidates(captures, stripped);
    let scan = weighted_scan(stripped, 0);
    lemma_dedup(c);
    lemma_lora_tags_nonempty(captures);
    lemma_weighted_scan_nonempty(stripped, 0);
    lemma_part_tags_nonempty(split_on(scan.1, ','));
    let a = lora_tags(captures);
    let b = scan.0;
    let p = part_tags(split_on(scan.1, ','));
    assert(all_nonempty(c)) by {
        assert forall|i: int| 0 <= i < c.len() implies (#[trigger] c[i]).len() > 0 by {
            if i < a.len() {
                assert(c[i] == a[i]);
            } else if i < a.len() + b.len() {
                assert(c[i] == b[i - a.len()]);
            } else {
                assert(c[i] == p[i - a.len() - b.len()]);
            }
        }
    }
    let d = dedup(c);
    assert forall|i: int| 0 <= i < d.len() implies (#[trigger] d[i]).len() > 0 by {
        assert(d.contains(d[i]));
        assert(c.contains(d[i]));
        let k = choose|k: int| 0 <= k < c.len() && c[k] == d[i];
        assert(c[k].len() > 0);
    }
}

// ---------------------------------------------------------------------------
// From generation info to tags.
// ---------------------------------------------------------------------------

/// `Negative prompt:`, the marker that ends the prompt in generation info.
pub open spec fn negative_marker() -> Seq<char> {
    seq!['N', 'e', 'g', 'a', 't', 'i', 'v', 'e', ' ', 'p', 'r', 'o', 'm', 'p', 't', ':']
}

/// The first position at or after `i` where `p` occurs in `s`.
pub open spec fn first_occurrence(s: Seq<char>, p: Seq<char>, i: int) -> Option<int>
    decreases s.len() + 1 - i,
{
    if i < 0 || i + p.len() > s.len() {
        None
    } else if s.subrange(i, i + p.len()) == p {
        Some(i)
    } else {
        first_occurrence(s, p, i + 1)
    }
}

/// The prompt part of generation info: everything before the first
/// `Negative prompt:` marker, or all of it when there is none.
pub open spec fn prompt_section(info: Seq<char>) -> Seq<char> {
    match first_occurrence(info, negative_marker(), 0) {
        Some(k) => info.take(k),
        None => info,
    }
}

proof fn lemma_first_occurrence_bounds(s: Seq<char>, p: Seq<char>, i: int)
    ensures
        first_occurrence(s, p, i) matches Some(k) ==> 0 <= k && k + p.len() <= s.len(),
    decreases s.len() + 1 - i,
{
    if !(i < 0 || i + p.len() > s.len()) && s.subrange(i, i + p.len()) != p {
        lemma_first_occurrence_bounds(s, p, i + 1);
    }
}

/// Whether `marker` occurs in `text` at `i`.
fn occurs_at(text: &Vec<char>, marker: &Vec<char>, i: usize) -> (b: bool)
    requires
        i + marker.len() <= text.len(),
    ensures
        b == (text@.subrange(i as int, i + marker.len()) == marker@),
{
    let mut k: usize = 0;
    while k < marker.len()
        invariant
            k <= marker.len(),
            i + marker.len() <= text.len(),
            forall|m: int| 0 <= m < k ==> text@[i + m] == marker@[m],
        decreases marker.len() - k,
    {
        if text[i + k] != marker[k] {
            assert(text@.subrange(i as int, i + marker.len())[k as int] != marker@[k as int]);
            return false;
        }
        k += 1;
    }
    assert(text@.subrange(i as int, i + marker.len()) =~= marker@);
    true
}

/// The length of the prompt part of `info`.
fn prompt_end(info: &Vec<char>) -> (end: usize)
    ensures
        end <= info.len(),
        info@.take(end as int) == prompt_section(info@),
{
    let marker: Vec<char> = vec![
        'N',
        'e',
        'g',
        'a',
        't',
        'i',
        'v',
        'e',
        ' ',
        'p',
        'r',
        'o',
        'm',
        'p',
        't',
        ':',
    ];
    assert(marker@ =~= negative_marker());
    let mut i: usize = 0;
    while marker.len() <= info.len() && i <= info.len() - marker.len()
        invariant
            marker@ == negative_marker(),
            first_occurrence(info@, marker@, 0) == first_occurrence(info@, marker@, i as int),
        decreases info.len() - i,
    {
        if occurs_at(info, &marker, i) {
            proof {
                lemma_first_occurrence_bounds(info@, marker@, 0);
            }
            return i;
        }
        i += 1;
    }
    assert(info@.take(info.len() as int) =~= info@);
    info.len()
}

/// The tags of generation info: none when its prompt part is empty (an empty
/// prompt holds no LoRA reference, group or part), otherwise the tags of its
/// prompt part as the two LoRA regexes see it; `None` when the regex crate
/// rejects one of those patterns.
pub open spec fn info_tags(info: Seq<char>) -> Option<Seq<Seq<char>>> {
    if prompt_section(info).len() == 0 {
        Some(seq![])
    } else if crate::pattern::regex_accepts(LORA_PATTERN@) && crate::pattern::regex_accepts(
        LORA_REMOVE_PATTERN@,
    ) {
        Some(
            prompt_tags(
                crate::pattern::regex_group1_captures(LORA_PATTERN@, prompt_section(info)),
                crate::pattern::regex_replaced_all(LORA_REMOVE_PATTERN@, prompt_section(info), ""@),
            ),
        )
    } else {
        None
    }
}

/// Extracts tags from Stable Diffusion generation info: the LoRA names of the
/// prompt (as `<lora:name>`), the tags of its weighted groups, then its
/// comma-separated parts, with repeats dropped. The prompt ends at the first
/// `Negative prompt:`. `None` only when the regex crate rejects one of the
/// two LoRA patterns.
pub fn extract_tags_from_info(generation_info: &str) -> (r: Option<Vec<String>>)
    ensures
        r.deep_view() == info_tags(generation_info@),
        r matches Some(tags) ==> no_repeats(tags.deep_view()) && all_nonempty(tags.deep_view()),
{
    let info = chars_of(generation_info);
    let end = prompt_end(&info);
    if end == 0 {
        return Some(Vec::new());
    }
    let prompt = string_of_range(&info, 0, end);
    assert(prompt@ == prompt_section(generation_info@));
    let lora = match CompiledPattern::new(LORA_PATTERN) {
        Some(p) => p,
        None => {
            return None;
        },
    };
    let lora_remove = match CompiledPattern::new(LORA_REMOVE_PATTERN) {
        Some(p) => p,
        None => {
            return None;
        },
    };
    let captures = captures_group1(&lora, prompt.as_str());
    let stripped = replace_all(&lora_remove, prompt.as_str(), "");
    Some(assemble_tags(&captures, stripped.as_str()))
}


// ---------------------------------------------------------------------------
// Tag-name length limit.
// ---------------------------------------------------------------------------

/// The length of `s` in UTF-8 bytes, which is what `str::len` counts.
pub open spec fn utf8_len(s: Seq<char>) -> nat {
    encode_utf8(s).len()
}

/// Immich's limit on the length of a tag name, in bytes.
pub const TAG_NAME_LIMIT: usize = 100;

/// The last character boundary of `bytes` at or before byte `i`.
pub open spec fn cut_point(bytes: Seq<u8>, i: int) -> int
    decreases i,
{
    if i <= 0 {
        0
    } else if is_char_boundary(bytes, i) {
        i
    } else {
        cut_point(bytes, i - 1)
    }
}

/// `...`, which marks a cut name.
pub open spec fn ellipsis() -> Seq<char> {
    seq!['.', '.', '.']
}

/// A name longer than 100 bytes becomes its longest prefix of at most 97
/// bytes that ends on a character boundary, followed by `...`.
pub open spec fn truncated_name(name: Seq<char>) -> Seq<char> {
    if utf8_len(name) <= 100 {
        name
    } else {
        let bytes = encode_utf8(name);
        decode_utf8(bytes.take(cut_point(bytes, 97))) + ellipsis()
    }
}

/// Encoding distributes over concatenation.
pub proof fn lemma_encode_utf8_concat(a: Seq<char>, b: Seq<char>)
    ensures
        encode_utf8(a + b) == encode_utf8(a) + encode_utf8(b),
    decreases a.len(),
{
    if a.len() > 0 {
        assert((a + b).drop_first() =~= a.drop_first() + b);
        lemma_encode_utf8_concat(a.drop_first(), b);
        assert(encode_utf8(a + b) =~= encode_utf8(a) + encode_utf8(b));
    } else {
        assert(a + b =~= b);
    }
}

/// The cut point is a character boundary no later than `i`.
pub proof fn lemma_cut_point(bytes: Seq<u8>, i: int)
    requires
        vstd::utf8::valid_utf8(bytes),
        0 <= i <= bytes.len(),
    ensures
        0 <= cut_point(bytes, i) <= i,
        is_char_boundary(bytes, cut_point(bytes, i)),
        forall|j: int| cut_point(bytes, i) < j <= i ==> !is_char_boundary(bytes, j),
    decreases i,
{
    if i > 0 && !is_char_boundary(bytes, i) {
        lemma_cut_point(bytes, i - 1);
    }
}

/// The bytes of `...`.
proof fn lemma_ellipsis_bytes()
    ensures
        encode_utf8(ellipsis()) == seq![0x2eu8, 0x2eu8, 0x2eu8],
{
    assert(('.' as u32) == 0x2eu32);
    assert((0x2eu32 & 0x7fu32) as u8 == 0x2eu8) by (bit_vector);
    assert(vstd::utf8::encode_scalar('.' as u32) =~= seq![0x2eu8]);
    let e = ellipsis();
    let one = e.drop_first().drop_first();
    assert(one =~= seq!['.']);
    assert(one.drop_first() =~= Seq::<char>::empty());
    assert(encode_utf8(one.drop_first()) =~= Seq::<u8>::empty());
    assert(encode_utf8(e.drop_first().drop_first()) =~= seq![0x2eu8]);
    assert(encode_utf8(e.drop_first()) =~= seq![0x2eu8, 0x2eu8]);
    assert(encode_utf8(e) =~= seq![0x2eu8, 0x2eu8, 0x2eu8]);
}

/// What a cut name is made of, in bytes: the first `cut_point(.., 97)` bytes
/// of the name, then the three bytes of `...`; at most 100 bytes in all.
pub proof fn lemma_truncated_bytes(name: Seq<char>)
    ensures
        utf8_len(truncated_name(name)) <= 100,
        utf8_len(name) > 100 ==> {
            let bytes = encode_utf8(name);
            &&& cut_point(bytes, 97) <= 97
            &&& is_char_boundary(bytes, cut_point(bytes, 97))
            &&& forall|j: int| cut_point(bytes, 97) < j <= 97 ==> !is_char_boundary(bytes, j)
            &&& encode_utf8(truncated_name(name)) == bytes.take(cut_point(bytes, 97)) + seq![
                0x2eu8,
                0x2eu8,
                0x2eu8,
            ]
        },
{
    if utf8_len(name) > 100 {
        let bytes = encode_utf8(name);
        vstd::utf8::encode_utf8_valid_utf8(name);
        lemma_cut_point(bytes, 97);
        let c = cut_point(bytes, 97);
        vstd::utf8::valid_utf8_split(bytes, c);
        assert(bytes.take(c) =~= bytes.subrange(0, c));
        vstd::utf8::decode_utf8_encode_utf8(bytes.take(c));
        lemma_encode_utf8_concat(decode_utf8(bytes.take(c)), ellipsis());
        lemma_ellipsis_bytes();
    }
}

/// Truncates a tag name longer than Immich's limit of 100 bytes: it keeps at
/// most 97 bytes, cutting at a character boundary, and adds `...`; shorter
/// names are kept as they are.
pub fn truncate_tag_name(name: &str) -> (r: String)
    ensures
        r@ == truncated_name(name@),
        utf8_len(r@) <= 100,
        utf8_len(name@) <= 100 ==> r@ == name@,
        utf8_len(name@) > 100 ==> r@.len() >= 3 && r@.skip(r@.len() - 3) == ellipsis(),
{
    proof {
        lemma_truncated_bytes(name@);
    }
    if name.as_bytes().len() <= TAG_NAME_LIMIT {
        return name.to_owned();
    }
    let ghost bytes = encode_utf8(name@);
    proof {
        vstd::utf8::encode_utf8_valid_utf8(name@);
        lemma_cut_point(bytes, 97);
    }
    let mut k: usize = 97;
    while k > 0 && !name.is_char_boundary(k)
        invariant
            k <= 97,
            bytes == encode_utf8(name@),
            bytes.len() > 100,
            cut_point(bytes, 97) == cut_point(bytes, k as int),
        decreases k,
    {
        k -= 1;
    }
    proof {
        lemma_cut_point(bytes, k as int);
    }
    let (head, _tail) = name.split_at(k);
    proof {
        encode_utf8_decode_utf8(head@);
        assert(bytes.take(k as int) =~= bytes.subrange(0, k as int));
    }
    let mut r = head.to_owned();
    push_char(&mut r, '.');
    push_char(&mut r, '.');
    push_char(&mut r, '.');
    assert(r@ =~= head@ + ellipsis());
    assert(r@.skip(r@.len() - 3) =~= ellipsis());
    r
}

/// Truncating a name twice gives what truncating it once gives.
pub proof fn lemma_truncate_idempotent(name: Seq<char>)
    ensures
        truncated_name(truncated_name(name)) == truncated_name(name),
{
    lemma_truncated_bytes(name);
}


/// No occurrence of `p` in `s` from `i` on.
proof fn lemma_no_occurrence(s: Seq<char>, p: Seq<char>, i: int, j: int)
    requires
        0 <= i <= j,
        j + p.len() <= s.len(),
        first_occurrence(s, p, i) is None,
    ensures
        s.subrange(j, j + p.len()) != p,
    decreases j - i,
{
    if i < j {
        lemma_no_occurrence(s, p, i + 1, j);
    }
}

/// `p` occurs in `s` at `j`.
spec fn found_at(s: Seq<char>, p: Seq<char>, j: int) -> bool {
    s.subrange(j, j + p.len()) == p
}

/// The first occurrence from `i` on is at `k` when none lies in `[i, k)`.
proof fn lemma_occurrence_at(s: Seq<char>, p: Seq<char>, i: int, k: int)
    requires
        0 <= i <= k,
        k + p.len() <= s.len(),
        s.subrange(k, k + p.len()) == p,
        forall|j: int| i <= j < k ==> !#[trigger] found_at(s, p, j),
    ensures
        first_occurrence(s, p, i) == Some(k),
    decreases k - i,
{
    if i < k {
        assert(!found_at(s, p, i));
        lemma_occurrence_at(s, p, i + 1, k);
    }
}

/// The marker's only `:` is its last character.
proof fn lemma_marker_colon_last(k: int)
    requires
        0 <= k < 15,
    ensures
        negative_marker()[k] != ':',
{
    let m = negative_marker();
    assert(m[0] == 'N' && m[1] == 'e' && m[2] == 'g' && m[3] == 'a' && m[4] == 't');
    assert(m[5] == 'i' && m[6] == 'v' && m[7] == 'e' && m[8] == ' ' && m[9] == 'p');
    assert(m[10] == 'r' && m[11] == 'o' && m[12] == 'm' && m[13] == 'p' && m[14] == 't');
}

/// No occurrence of the marker starts inside `p` when `p` holds none: one
/// ending inside the marker after `p` would need a `:` before its end.
proof fn lemma_no_marker_before(p: Seq<char>, n: Seq<char>, j: int)
    requires
        first_occurrence(p, negative_marker(), 0) is None,
        0 <= j < p.len(),
    ensures
        !found_at(p + negative_marker() + n, negative_marker(), j),
{
    let m = negative_marker();
    let s = p + m + n;
    if j + m.len() <= p.len() {
        lemma_no_occurrence(p, m, 0, j);
        assert(s.subrange(j, j + m.len()) =~= p.subrange(j, j + m.len()));
    } else {
        let k = j + 15 - p.len();
        lemma_marker_colon_last(k);
        assert(s[j + 15] == m[k]);
        if found_at(s, m, j) {
            assert(s.subrange(j, j + m.len())[15] == s[j + 15]);
            assert(m[15] == ':');
        }
    }
}

/// The prompt part of `p`, the `Negative prompt:` marker and anything after
/// it is `p` itself, when `p` holds no marker.
pub proof fn lemma_prompt_section_cut(p: Seq<char>, n: Seq<char>)
    requires
        first_occurrence(p, negative_marker(), 0) is None,
    ensures
        prompt_section(p + negative_marker() + n) == p,
        prompt_section(p) == p,
{
    let m = negative_marker();
    let s = p + m + n;
    assert(s.subrange(p.len() as int, (p.len() + m.len()) as int) =~= m);
    assert forall|j: int| 0 <= j < p.len() implies !#[trigger] found_at(s, m, j) by {
        lemma_no_marker_before(p, n, j);
    }
    lemma_occurrence_at(s, m, 0, p.len() as int);
    assert(s.take(p.len() as int) =~= p);
}

/// Cutting generation info at a `Negative prompt:` marker: nothing from the
/// marker on contributes tags, when the text before it holds no marker.
pub proof fn lemma_negative_prompt_ignored(p: Seq<char>, n: Seq<char>)
    requires
        first_occurrence(p, negative_marker(), 0) is None,
    ensures
        info_tags(p + negative_marker() + n) == info_tags(p),
{
    lemma_prompt_section_cut(p, n);
}


// ---------------------------------------------------------------------------
// Laws of weighted-group extraction.
// ---------------------------------------------------------------------------

/// After a prefix that does not end in a backslash, backslash runs in the
/// rest are counted as in the rest alone.
proof fn lemma_backslash_run_shift(g: Seq<char>, q: Seq<char>, j: int)
    requires
        g.len() > 0,
        g.last() != '\\',
        0 <= j <= q.len(),
    ensures
        backslash_run(g + q, g.len() + j) == backslash_run(q, j),
    decreases j,
{
    let s = g + q;
    if j == 0 {
        assert(s[g.len() - 1] == g.last());
    } else {
        assert(s[g.len() + j - 1] == q[j - 1]);
        lemma_backslash_run_shift(g, q, j - 1);
    }
}

/// Closing parentheses in the rest are found as in the rest alone.
proof fn lemma_closing_paren_shift(g: Seq<char>, q: Seq<char>, j: int)
    requires
        g.len() > 0,
        g.last() != '\\',
        0 <= j,
    ensures
        closing_paren(g + q, g.len() + j) == (match closing_paren(q, j) {
            Some(c) => Some(c + g.len()),
            None => None::<int>,
        }),
    decreases q.len() - j,
{
    let s = g + q;
    if j < q.len() {
        assert(s[g.len() + j] == q[j]);
        lemma_backslash_run_shift(g, q, j);
        if !(q[j] == ')' && !escaped(q, j)) {
            lemma_closing_paren_shift(g, q, j + 1);
        }
    }
}

/// Weighted groups in the rest are found as in the rest alone.
proof fn lemma_weighted_group_shift(g: Seq<char>, q: Seq<char>, j: int)
    requires
        g.len() > 0,
        g.last() != '\\',
        0 <= j < q.len(),
    ensures
        weighted_group(g + q, g.len() + j) == (match weighted_group(q, j) {
            Some((t, n)) => Some((t, n + g.len())),
            None => None::<(Seq<char>, int)>,
        }),
{
    let s = g + q;
    lemma_closing_paren_shift(g, q, j + 1);
    lemma_closing_paren_bounds(q, j + 1);
    match closing_paren(q, j + 1) {
        Some(c) => {
            assert(s.subrange(g.len() + j + 1, c + g.len()) =~= q.subrange(j + 1, c));
        },
        None => {},
    }
}

/// Scanning the rest of a text after a prefix that does not end in a
/// backslash gives what scanning the rest alone gives.
pub proof fn lemma_weighted_scan_shift(g: Seq<char>, q: Seq<char>, j: int)
    requires
        g.len() > 0,
        g.last() != '\\',
        0 <= j,
    ensures
        weighted_scan(g + q, g.len() + j) == weighted_scan(q, j),
    decreases q.len() - j,
{
    let s = g + q;
    if j < q.len() {
        assert(s[g.len() + j] == q[j]);
        lemma_backslash_run_shift(g, q, j);
        lemma_weighted_group_shift(g, q, j);
        if q[j] == '(' && !escaped(q, j) && weighted_group(q, j) is Some {
            lemma_closing_paren_bounds(q, j + 1);
            let n = weighted_group(q, j).unwrap().1;
            lemma_weighted_scan_shift(g, q, n);
        } else {
            lemma_weighted_scan_shift(g, q, j + 1);
        }
    }
}

/// The closing parenthesis found from `i` is the one at `c` when no
/// unescaped `)` comes before it.
proof fn lemma_closing_paren_at(s: Seq<char>, i: int, c: int)
    requires
        0 <= i <= c < s.len(),
        s[c] == ')',
        !escaped(s, c),
        forall|j: int| i <= j < c ==> #[trigger] s[j] != ')',
    ensures
        closing_paren(s, i) == Some(c),
    decreases c - i,
{
    if i < c {
        lemma_closing_paren_at(s, i + 1, c);
    }
}

/// The last `c` of `a + [c] + b` is the one after `a` when `b` holds none.
proof fn lemma_last_index_after(a: Seq<char>, c: char, b: Seq<char>)
    requires
        forall|j: int| 0 <= j < b.len() ==> #[trigger] b[j] != c,
    ensures
        last_index_of(a + seq![c] + b, c) == Some(a.len() as int),
    decreases b.len(),
{
    let s = a + seq![c] + b;
    if b.len() > 0 {
        assert(s.last() == b.last());
        assert(s.drop_last() =~= a + seq![c] + b.drop_last());
        lemma_last_index_after(a, c, b.drop_last());
    } else {
        assert(s =~= a.push(c));
    }
}

/// An opening parenthesis escaped by a backslash opens no group: both stay in
/// the text, and what follows is scanned as if it stood alone.
pub proof fn lemma_escaped_paren_kept(rest: Seq<char>)
    ensures
        weighted_scan(seq!['\\', '('] + rest, 0) == (weighted_scan(rest, 0).0, seq!['\\', '(']
            + weighted_scan(rest, 0).1),
{
    let g = seq!['\\', '('];
    let s = g + rest;
    assert(s[0] == '\\');
    assert(s[1] == '(');
    assert(backslash_run(s, 0) == 0);
    assert(backslash_run(s, 1) == 1);
    lemma_weighted_scan_shift(g, rest, 0);
    assert(weighted_scan(s, 2) == weighted_scan(rest, 0));
    assert(escaped(s, 1));
    let r2 = weighted_scan(s, 2);
    assert(weighted_scan(s, 1) == (r2.0, seq!['('] + r2.1));
    assert(weighted_scan(s, 0) == (r2.0, seq!['\\'] + (seq!['('] + r2.1)));
    assert(seq!['\\'] + (seq!['('] + weighted_scan(rest, 0).1) =~= seq!['\\', '(']
        + weighted_scan(rest, 0).1);
}

/// The text of a weighted group: `(`, the tag, `:`, the weight, `)`.
pub open spec fn group_text(tag: Seq<char>, weight: Seq<char>) -> Seq<char> {
    seq!['('] + tag + seq![':'] + weight + seq![')']
}

/// A weighted group at the start of a text is taken out and gives its
/// trimmed tag (when not blank), and the rest of the text is scanned as if it
/// stood alone: so every group of a prompt is extracted, not only the first.
/// The tag must be non-empty and hold no `)`; the weight may be any string of
/// ASCII digits and dots, of any length, the empty one included.
pub proof fn lemma_weighted_group_then_rest(tag: Seq<char>, weight: Seq<char>, rest: Seq<char>)
    requires
        tag.len() > 0,
        forall|j: int| 0 <= j < tag.len() ==> #[trigger] tag[j] != ')',
        forall|j: int|
            0 <= j < weight.len() ==> ('0' <= #[trigger] weight[j] <= '9' || weight[j] == '.'),
    ensures
        weighted_scan(group_text(tag, weight) + rest, 0) == ((if crate::text::trimmed(tag).len()
            > 0 {
            seq![crate::text::trimmed(tag)]
        } else {
            seq![]
        }) + weighted_scan(rest, 0).0, weighted_scan(rest, 0).1),
{
    let g = group_text(tag, weight);
    let s = g + rest;
    let c = g.len() - 1;
    assert(g.last() == ')');
    assert(s[0] == '(');
    assert(s[c] == ')');
    assert(backslash_run(s, 0) == 0);
    let content = tag + seq![':'] + weight;
    assert(s.subrange(1, c) =~= content);
    // The character before the closing parenthesis is a digit, a dot or `:`.
    assert(s[c - 1] != '\\') by {
        if weight.len() > 0 {
            assert(s[c - 1] == weight[weight.len() - 1]);
        } else {
            assert(s[c - 1] == ':');
        }
    }
    assert(backslash_run(s, c) == 0);
    assert forall|j: int| 1 <= j < c implies #[trigger] s[j] != ')' by {
        assert(s[j] == content[j - 1]);
        if j - 1 < tag.len() {
            assert(content[j - 1] == tag[j - 1]);
        } else if j - 1 > tag.len() {
            assert(content[j - 1] == weight[j - 2 - tag.len()]);
        }
    }
    lemma_closing_paren_at(s, 1, c);
    assert forall|j: int| 0 <= j < weight.len() implies #[trigger] weight[j] != ':' by {}
    lemma_last_index_after(tag, ':', weight);
    assert(content.take(tag.len() as int) =~= tag);
    assert(content.skip((tag.len() + 1) as int) =~= weight);
    assert(weighted_group(s, 0) == Some((crate::text::trimmed(tag), g.len() as int)));
    lemma_weighted_scan_shift(g, rest, 0);
    assert(weighted_scan(s, g.len() as int) == weighted_scan(rest, 0));
}


// ---------------------------------------------------------------------------
// Laws of splitting and de-duplication.
// ---------------------------------------------------------------------------

/// The pieces joined back together with `sep` between them.
pub open spec fn join_with(pieces: Seq<Seq<char>>, sep: char) -> Seq<char>
    decreases pieces.len(),
{
    if pieces.len() <= 1 {
        if pieces.len() == 1 {
            pieces[0]
        } else {
            seq![]
        }
    } else {
        join_with(pieces.drop_last(), sep) + seq![sep] + pieces.last()
    }
}

/// Splitting at `sep` loses nothing and cuts at every `sep`: the pieces joined
/// with `sep` give the text back, no piece holds `sep`, and there is one more
/// piece than there are separators.
pub proof fn lemma_split_on(s: Seq<char>, sep: char)
    ensures
        join_with(split_on(s, sep), sep) == s,
        forall|i: int, j: int|
            0 <= i < split_on(s, sep).len() && 0 <= j < split_on(s, sep)[i].len() ==> split_on(
                s,
                sep,
            )[i][j] != sep,
        split_on(s, sep).len() >= 1,
    decreases s.len(),
{
    lemma_last_index_of_bounds(s, sep);
    match last_index_of(s, sep) {
        None => {},
        Some(k) => {
            let left = split_on(s.take(k), sep);
            let right = s.skip(k + 1);
            lemma_split_on(s.take(k), sep);
            let ps = left.push(right);
            assert(ps.drop_last() =~= left);
            assert(join_with(ps, sep) =~= s);
            assert forall|i: int, j: int|
                0 <= i < ps.len() && 0 <= j < ps[i].len() implies ps[i][j] != sep by {
                if i == ps.len() - 1 {
                    assert(ps[i][j] == s[k + 1 + j]);
                } else {
                    assert(ps[i] == left[i]);
                }
            }
        },
    }
}

/// Dropping repeats keeps first occurrences in order: what it gives for a
/// prefix of `s` is a prefix of what it gives for `s`.
pub proof fn lemma_dedup_prefix(s: Seq<Seq<char>>, i: int)
    requires
        0 <= i <= s.len(),
    ensures
        dedup(s.take(i)).len() <= dedup(s).len(),
        dedup(s).take(dedup(s.take(i)).len() as int) == dedup(s.take(i)),
    decreases s.len(),
{
    if i == s.len() {
        assert(s.take(i) =~= s);
        assert(dedup(s).take(dedup(s).len() as int) =~= dedup(s));
    } else {
        lemma_dedup_prefix(s.drop_last(), i);
        assert(s.drop_last().take(i) =~= s.take(i));
        let d = dedup(s.drop_last());
        let n = dedup(s.take(i)).len() as int;
        assert(dedup(s).take(n) =~= d.take(n));
    }
}

} // verus!
