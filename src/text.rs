use vstd::prelude::*;
use vstd::std_specs::iter::IteratorSpec;

verus! {

/// Length of the run of consecutive integers (each one more than the one
/// before it) that ends at position `i` of `nums`.
pub open spec fn run_len_at(nums: Seq<i32>, i: int) -> int
    decreases i,
{
    if i <= 0 {
        1
    } else if nums[i] as int == nums[i - 1] as int + 1 {
        run_len_at(nums, i - 1) + 1
    } else {
        1
    }
}

/// Position `e` ends the first longest run of `nums`.
pub open spec fn ends_first_longest_run(nums: Seq<i32>, e: int) -> bool {
    &&& 0 <= e < nums.len()
    &&& forall|i: int| 0 <= i < nums.len() ==> run_len_at(nums, i) <= run_len_at(nums, e)
    &&& forall|i: int| 0 <= i < e ==> run_len_at(nums, i) < run_len_at(nums, e)
}

proof fn lemma_run_len_bounds(nums: Seq<i32>, i: int)
    requires
        0 <= i < nums.len(),
    ensures
        1 <= run_len_at(nums, i) <= i + 1,
    decreases i,
{
    if i > 0 {
        lemma_run_len_bounds(nums, i - 1);
    }
}

/// The first and last values of the first longest run of consecutive
/// integers in `nums`, taken in input order; `(-1, -1)` for no input.
pub fn find_longest_consecutive_sequence(nums: Vec<i32>) -> (r: (i32, i32))
    ensures
        nums@.len() == 0 ==> r == (-1i32, -1i32),
        nums@.len() > 0 ==> exists|e: int|
            ends_first_longest_run(nums@, e) && r == (
                nums@[e - run_len_at(nums@, e) + 1],
                nums@[e],
            ),
{
    if nums.len() == 0 {
        return (-1, -1);
    }
    let mut max_start = nums[0];
    let mut max_end = nums[0];
    let mut current_start = nums[0];
    let mut max_length: usize = 1;
    let mut current_length: usize = 1;
    let ghost mut best: int = 0;
    let mut i: usize = 1;
    while i < nums.len()
        invariant
            1 <= i <= nums.len(),
            current_length == run_len_at(nums@, i - 1),
            current_start == nums@[i - current_length],
            0 <= best < i,
            max_length == run_len_at(nums@, best),
            max_start == nums@[best - max_length + 1],
            max_end == nums@[best],
            forall|j: int| 0 <= j < i ==> run_len_at(nums@, j) <= max_length,
            forall|j: int| 0 <= j < best ==> run_len_at(nums@, j) < max_length,
        decreases nums.len() - i,
    {
        proof {
            lemma_run_len_bounds(nums@, i - 1);
        }
        if nums[i] as i64 == nums[i - 1] as i64 + 1 {
            current_length += 1;
            if current_length > max_length {
                max_length = current_length;
                max_start = current_start;
                max_end = nums[i];
                proof {
                    best = i as int;
                }
            }
        } else {
            current_start = nums[i];
            current_length = 1;
        }
        i += 1;
    }
    assert(ends_first_longest_run(nums@, best));
    (max_start, max_end)
}

/// The characters of `s`, in order.
pub fn chars_of(s: &str) -> (r: Vec<char>)
    ensures
        r@ == s@,
{
    broadcast use vstd::string::axiom_spec_iter;

    let mut out: Vec<char> = Vec::new();
    for c in it: s.chars()
        invariant
            it.seq() == s@,
            out@ == s@.take(it.index() as int),
    {
        out.push(c);
    }
    assert(out@ =~= s@);
    out
}

/// Views of a sequence of strings.
pub open spec fn string_views(v: Seq<String>) -> Seq<Seq<char>> {
    v.map_values(|s: String| s@)
}

/// Relies on `String: FromIterator<&char>`: the string of the given
/// characters, in order.
#[verifier::external_body]
pub(crate) fn string_from_chars(cs: &Vec<char>) -> (r: String)
    ensures
        r@ == cs@,
{
    cs.iter().collect()
}

/// The bracket scan from depth `depth` with span `span` collected so far:
/// `[` deepens, a `]` inside brackets rises (a stray `]` outside them is
/// passed over), characters are collected while the depth is positive, and
/// the scan ends with the span when a `]` brings the depth back to zero.
pub open spec fn bracket_span_from(s: Seq<char>, depth: nat, span: Seq<char>) -> Option<Seq<char>>
    decreases s.len(),
{
    if s.len() == 0 {
        None
    } else {
        let c = s[0];
        let d1: nat = if c == '[' { depth + 1 } else { depth };
        let span1 = if d1 > 0 { span.push(c) } else { span };
        if c == ']' && d1 == 1 {
            Some(span1)
        } else {
            let d2: nat = if c == ']' && d1 > 0 { (d1 - 1) as nat } else { d1 };
            bracket_span_from(s.drop_first(), d2, span1)
        }
    }
}

/// The first balanced `[...]` span of `text`, brackets included, as a list
/// of zero or one strings.
pub fn get_list_from_string(text: &str) -> (r: Vec<String>)
    ensures
        bracket_span_from(text@, 0, seq![]) is None ==> r@.len() == 0,
        bracket_span_from(text@, 0, seq![]) is Some ==> string_views(r@) == seq![
            bracket_span_from(text@, 0, seq![])->0,
        ],
{
    let cs = chars_of(text);
    let mut span: Vec<char> = Vec::new();
    let mut depth: usize = 0;
    let mut found = false;
    let mut i: usize = 0;
    assert(text@.subrange(0, text@.len() as int) =~= text@);
    assert(span@ =~= seq![]);
    while !found && i < cs.len()
        invariant
            cs@ == text@,
            i <= cs.len(),
            depth <= i,
            found ==> bracket_span_from(text@, 0, seq![]) == Some(span@),
            !found ==> bracket_span_from(text@, 0, seq![]) == bracket_span_from(
                text@.subrange(i as int, text@.len() as int),
                depth as nat,
                span@,
            ),
        decreases cs.len() - i,
    {
        let ghost rest = text@.subrange(i as int, text@.len() as int);
        assert(rest.drop_first() =~= text@.subrange(i + 1, text@.len() as int));
        let c = cs[i];
        if c == '[' {
            depth += 1;
        }
        if depth > 0 {
            span.push(c);
        }
        if c == ']' && depth > 0 {
            depth -= 1;
            if depth == 0 {
                found = true;
            }
        }
        i += 1;
    }
    if found {
        let s = string_from_chars(&span);
        let r = vec![s];
        assert(string_views(r@) =~= seq![span@]);
        r
    } else {
        assert(text@.subrange(i as int, text@.len() as int) =~= Seq::<char>::empty());
        Vec::new()
    }
}

/// Whether `regex::Regex::new` accepts `pattern`: it refuses patterns
/// outside the crate's syntax and those whose compiled form is over its size
/// limit.
pub uninterp spec fn regex_compiles(pattern: Seq<char>) -> bool;

/// For each successive non-overlapping match of `pattern` in `text`, the
/// text of capture group `group`, where that group took part in the match.
pub uninterp spec fn regex_group_captures(pattern: Seq<char>, text: Seq<char>, group: nat) -> Seq<
    Option<Seq<char>>,
>;

/// Views of optional strings.
pub open spec fn option_views(v: Seq<Option<String>>) -> Seq<Option<Seq<char>>> {
    v.map_values(|o: Option<String>| if o is Some { Some(o->0@) } else { None })
}

/// Relies on regex::Regex::new, which refuses a pattern outside the crate's
/// syntax or over its size limit, and Regex::captures_iter with
/// Captures::get, which give, match by match, the text of one capture group.
#[verifier::external_body]
fn captures_of(pattern: &str, text: &str, group: usize) -> (r: Option<Vec<Option<String>>>)
    ensures
        r is Some <==> regex_compiles(pattern@),
        r is Some ==> option_views(r->0@) == regex_group_captures(pattern@, text@, group as nat),
{
    match regex::Regex::new(pattern) {
        Ok(re) => Some(
            re.captures_iter(text).map(|c| c.get(group).map(|m| m.as_str().to_string())).collect(),
        ),
        Err(_) => None,
    }
}

/// The texts present among optional captures, in order.
pub open spec fn present_texts(caps: Seq<Option<Seq<char>>>) -> Seq<Seq<char>>
    decreases caps.len(),
{
    if caps.len() == 0 {
        seq![]
    } else {
        let p = present_texts(caps.drop_last());
        if caps.last() is Some {
            p.push(caps.last()->0)
        } else {
            p
        }
    }
}

/// The pattern that finds a LaTeX structuring command with a braced
/// argument, capturing the command name in group 1.
pub open spec fn title_patterns() -> Seq<Seq<char>> {
    seq![
        "\\\\(title)\\{(.*?)\\}"@,
        "\\\\(part)\\{(.*?)\\}"@,
        "\\\\(chapter)\\{(.*?)\\}"@,
        "\\\\(section)\\{(.*?)\\}"@,
        "\\\\(subsection)\\{(.*?)\\}"@,
        "\\\\(subsubsection)\\{(.*?)\\}"@,
        "\\\\(paragraph)\\{(.*?)\\}"@,
        "\\\\(subparagraph)\\{(.*?)\\}"@,
    ]
}

fn title_pattern(i: usize) -> (r: &'static str)
    requires
        i < title_patterns().len(),
    ensures
        r@ == title_patterns()[i as int],
{
    match i {
        0 => "\\\\(title)\\{(.*?)\\}",
        1 => "\\\\(part)\\{(.*?)\\}",
        2 => "\\\\(chapter)\\{(.*?)\\}",
        3 => "\\\\(section)\\{(.*?)\\}",
        4 => "\\\\(subsection)\\{(.*?)\\}",
        5 => "\\\\(subsubsection)\\{(.*?)\\}",
        6 => "\\\\(paragraph)\\{(.*?)\\}",
        _ => "\\\\(subparagraph)\\{(.*?)\\}",
    }
}

/// Group 1 of every match of each pattern in `pats` over `text`, pattern
/// by pattern.
pub open spec fn titles_for(pats: Seq<Seq<char>>, text: Seq<char>) -> Seq<Seq<char>>
    decreases pats.len(),
{
    if pats.len() == 0 {
        seq![]
    } else {
        titles_for(pats.drop_last(), text) + present_texts(
            regex_group_captures(pats.last(), text, 1),
        )
    }
}

/// A title pattern that the regex crate refused.
#[derive(Debug, PartialEq, Eq, Structural)]
pub enum TitleError {
    InvalidPattern,
}

/// What the structuring-command patterns capture in `latex`: for each
/// command in turn (title, part, chapter, section, subsection,
/// subsubsection, paragraph, subparagraph), group 1 of each of its matches.
pub fn get_title_from_latex(latex: String) -> (r: Result<Vec<String>, TitleError>)
    ensures
        r is Ok <==> forall|i: int| 0 <= i < title_patterns().len() ==> regex_compiles(
            #[trigger] title_patterns()[i],
        ),
        r is Ok ==> string_views(r->Ok_0@) == titles_for(title_patterns(), latex@),
{
    let mut titles: Vec<String> = Vec::new();
    let mut i: usize = 0;
    while i < 8
        invariant
            i <= 8,
            title_patterns().len() == 8,
            forall|j: int| 0 <= j < i ==> regex_compiles(#[trigger] title_patterns()[j]),
            string_views(titles@) == titles_for(title_patterns().take(i as int), latex@),
        decreases 8 - i,
    {
        let pattern = title_pattern(i);
        let caps = match captures_of(pattern, latex.as_str(), 1) {
            Some(caps) => caps,
            None => {
                return Err(TitleError::InvalidPattern);
            },
        };
        let ghost before = string_views(titles@);
        let mut j: usize = 0;
        while j < caps.len()
            invariant
                j <= caps.len(),
                string_views(titles@) == before + present_texts(
                    option_views(caps@).take(j as int),
                ),
            decreases caps.len() - j,
        {
            let ghost t0 = titles@;
            assert(option_views(caps@).take(j + 1).drop_last() =~= option_views(caps@).take(
                j as int,
            ));
            match &caps[j] {
                Some(t) => {
                    titles.push(t.clone());
                    assert(string_views(titles@) =~= string_views(t0).push(t@));
                },
                None => {},
            }
            j += 1;
        }
        assert(option_views(caps@).take(caps.len() as int) =~= option_views(caps@));
        assert(title_patterns().take(i + 1).drop_last() =~= title_patterns().take(i as int));
        i += 1;
    }
    assert(title_patterns().take(8) =~= title_patterns());
    Ok(titles)
}

/// What replacing every match of `pattern` in `text` with `replacement`
/// gives, `$` references in the replacement expanded.
pub uninterp spec fn regex_replaced(pattern: Seq<char>, text: Seq<char>, replacement: Seq<char>) -> Seq<char>;

/// Relies on regex::Regex::new, which refuses a pattern outside the crate's
/// syntax or over its size limit, and Regex::replace_all, which replaces
/// every match.
#[verifier::external_body]
fn replace_all_of(pattern: &str, text: &str, replacement: &str) -> (r: Option<String>)
    ensures
        r is Some <==> regex_compiles(pattern@),
        r is Some ==> r->0@ == regex_replaced(pattern@, text@, replacement@),
{
    match regex::Regex::new(pattern) {
        Ok(re) => Some(re.replace_all(text, replacement).into_owned()),
        Err(_) => None,
    }
}

/// The pattern for a line feed not preceded by a sentence ending. It needs
/// look-behind, which the regex crate does not accept.
pub open spec fn unended_linefeed_pattern() -> Seq<char> {
    "(?<![。！？.!?])\\n"@
}

/// `sentence` with its line feeds replaced by `replace`; with `ignore_end`,
/// only those not after a sentence ending. `None` when the regex crate
/// refuses the pattern.
pub fn replace_linefeed(sentence: &str, ignore_end: bool, replace: &str) -> (r: Option<String>)
    ensures
        ({
            let p = if ignore_end { unended_linefeed_pattern() } else { "\\n"@ };
            &&& r is Some <==> regex_compiles(p)
            &&& r is Some ==> r->0@ == regex_replaced(p, sentence@, replace@)
        }),
{
    let pattern = if ignore_end {
        "(?<![。！？.!?])\\n"
    } else {
        "\\n"
    };
    replace_all_of(pattern, sentence, replace)
}

} // verus!
