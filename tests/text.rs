use course_graph_ext::chunk::{merge_strings, optimize_string_lengths, optimize_strings_length};
use course_graph_ext::text::{
    find_longest_consecutive_sequence, get_list_from_string, get_title_from_latex,
    replace_linefeed,
};

fn strings(v: &[&str]) -> Vec<String> {
    v.iter().map(|s| s.to_string()).collect()
}

#[test]
fn longest_run_of_empty_input() {
    assert_eq!(find_longest_consecutive_sequence(vec![]), (-1, -1));
}

#[test]
fn longest_run_single() {
    assert_eq!(find_longest_consecutive_sequence(vec![5]), (5, 5));
}

#[test]
fn longest_run_in_input_order() {
    assert_eq!(find_longest_consecutive_sequence(vec![1, 2, 3, 5, 6]), (1, 3));
    assert_eq!(find_longest_consecutive_sequence(vec![9, 1, 2, 3, 4, 0]), (1, 4));
}

#[test]
fn longest_run_first_of_equal_length() {
    assert_eq!(find_longest_consecutive_sequence(vec![3, 4, 1, 2]), (3, 4));
    assert_eq!(find_longest_consecutive_sequence(vec![7, 3, 1]), (7, 7));
}

#[test]
fn longest_run_at_integer_limit() {
    assert_eq!(find_longest_consecutive_sequence(vec![i32::MAX, i32::MIN, 0]), (i32::MAX, i32::MAX));
}

#[test]
fn bracket_span_nested() {
    assert_eq!(get_list_from_string("abc [1, [2]] def]"), strings(&["[1, [2]]"]));
}

#[test]
fn bracket_span_absent() {
    assert_eq!(get_list_from_string("no brackets"), Vec::<String>::new());
    assert_eq!(get_list_from_string("[unclosed"), Vec::<String>::new());
}

#[test]
fn bracket_span_after_stray_close() {
    assert_eq!(get_list_from_string("]x[ab]"), strings(&["[ab]"]));
    assert_eq!(get_list_from_string("x]y[z]"), strings(&["[z]"]));
}

#[test]
fn titles_give_command_names_by_command() {
    let latex = "\\subsection{Deep} text \\section{Intro}\n\\title{T}".to_string();
    assert_eq!(get_title_from_latex(latex), Ok(strings(&["title", "section", "subsection"])));
}

#[test]
fn titles_of_plain_text() {
    assert_eq!(get_title_from_latex("plain".to_string()), Ok(vec![]));
}

#[test]
fn linefeeds_replaced() {
    assert_eq!(replace_linefeed("a\nb\nc", false, " "), Some("a b c".to_string()));
}

#[test]
fn linefeeds_with_sentence_ends_need_lookbehind() {
    assert_eq!(replace_linefeed("a.\nb", true, " "), None);
}

#[test]
fn merge_allows_one_overflow() {
    let out = merge_strings(strings(&["ab", "cd", "efgh", "ij"]), 4);
    assert_eq!(out, strings(&["ab\ncd", "efgh", "ij"]));
}

#[test]
fn merge_of_nothing() {
    assert_eq!(merge_strings(vec![], 3), Vec::<String>::new());
}

#[test]
fn merge_below_bound_is_one_chunk() {
    assert_eq!(merge_strings(strings(&["a", "b"]), 10), strings(&["a\nb"]));
}

#[test]
fn chunks_without_trimming() {
    let out = optimize_string_lengths(strings(&["ab", "cd", "一二。三四五六。七"]), 4);
    assert_eq!(out, strings(&["ab\ncd\n", "三四五六。", "一二。七"]));
}

#[test]
fn chunks_with_trimming() {
    let out = optimize_strings_length(strings(&["ab", "cd", "一二。三四五六。七"]), 4);
    assert_eq!(out, strings(&["ab\ncd", "三四五六。", "一二。七"]));
}

#[test]
fn chunks_keep_leftover_buffer() {
    let out = optimize_strings_length(strings(&["ab"]), 10);
    assert_eq!(out, strings(&["ab\n"]));
}

#[test]
fn chunks_of_sentence_ending_with_full_stop() {
    let out = optimize_string_lengths(strings(&["甲乙丙丁。"]), 4);
    assert_eq!(out, strings(&["甲乙丙丁。"]));
}

#[test]
fn chunks_trim_unicode_white_space() {
    let out = optimize_strings_length(strings(&["a", "\u{3000}"]), 4);
    assert_eq!(out, strings(&["a"]));
}
