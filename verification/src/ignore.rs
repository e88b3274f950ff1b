//! Ignore patterns: what a pattern matches and when a directory is skipped.

use vstd::prelude::*;
use vstd::slice::*;
use vstd::string::*;
use vstd::utf8::*;

verus! {

/// A pattern that begins with `/` names a path beneath the candidate
/// directory rather than the directory itself.
pub open spec fn is_marker_pattern(pattern: Seq<char>) -> bool {
    pattern.len() > 0 && pattern[0] == '/'
}

/// The path, relative to the candidate directory, that a marker pattern names.
pub open spec fn marker_path(pattern: Seq<char>) -> Seq<char>
    recommends
        is_marker_pattern(pattern),
{
    pattern.skip(1)
}

/// Whether one pattern excludes a directory called `name` beneath which the
/// relative paths `markers` are known to exist.
pub open spec fn pattern_matches(
    pattern: Seq<char>,
    name: Seq<char>,
    markers: Seq<Seq<char>>,
) -> bool {
    pattern == name || (is_marker_pattern(pattern) && markers.contains(marker_path(pattern)))
}

/// Whether some pattern of `ignores` excludes the directory.
pub open spec fn ignored(
    ignores: Seq<Seq<char>>,
    name: Seq<char>,
    markers: Seq<Seq<char>>,
) -> bool {
    exists|i: int| 0 <= i < ignores.len() && #[trigger] pattern_matches(ignores[i], name, markers)
}

/// The paths that the marker patterns of `ignores` name, in the order of
/// their patterns: what has to be looked up beneath a directory before
/// [`should_ignore_dir`] can decide on it.
pub open spec fn marker_paths_of(ignores: Seq<Seq<char>>) -> Seq<Seq<char>> {
    ignores.filter_map(
        |pattern: Seq<char>|
            if is_marker_pattern(pattern) {
                Some(marker_path(pattern))
            } else {
                None
            },
    )
}

/// Whether two strings hold the same text.
fn same_text(a: &str, b: &str) -> (same: bool)
    ensures
        same == (a@ == b@),
{
    let x = a.as_bytes();
    let y = b.as_bytes();
    proof {
        // A text is recovered from its bytes, so equal bytes mean equal texts.
        encode_utf8_decode_utf8(a@);
        encode_utf8_decode_utf8(b@);
    }
    if x.len() != y.len() {
        return false;
    }
    let mut i: usize = 0;
    while i < x.len()
        invariant
            i <= x.len(),
            x.len() == y.len(),
            x@ == encode_utf8(a@),
            y@ == encode_utf8(b@),
            forall|j: int| 0 <= j < i ==> x@[j] == y@[j],
        decreases x.len() - i,
    {
        if x[i] != y[i] {
            return false;
        }
        i += 1;
    }
    assert(x@ =~= y@);
    true
}

/// Whether `text` occurs in `list`.
fn listed(list: &Vec<String>, text: &str) -> (found: bool)
    ensures
        found == list.deep_view().contains(text@),
{
    let mut i: usize = 0;
    while i < list.len()
        invariant
            i <= list.len(),
            forall|j: int| 0 <= j < i ==> list.deep_view()[j] != text@,
        decreases list.len() - i,
    {
        if same_text(list[i].as_str(), text) {
            assert(list.deep_view()[i as int] == text@);
            return true;
        }
        i += 1;
    }
    false
}

/// The path that a marker pattern names, or `None` for a bare name.
fn marker_of(pattern: &str) -> (rest: Option<&str>)
    ensures
        rest is Some <==> is_marker_pattern(pattern@),
        rest matches Some(path) ==> path@ == marker_path(pattern@),
{
    if pattern.is_empty() {
        return None;
    }
    if pattern.get_char(0) != '/' {
        return None;
    }
    let len = pattern.unicode_len();
    Some(pattern.substring_char(1, len))
}

/// Decides whether the directory called `name` is skipped: neither entered
/// nor counted nor copied.
///
/// `markers` lists the relative paths that were looked up beneath the
/// directory and found to exist. The directory is skipped when a pattern is
/// its name, letter for letter, or when a pattern `/path` names one of
/// `markers`.
pub fn should_ignore_dir(ignores: &Vec<String>, name: &str, markers: &Vec<String>) -> (skip: bool)
    ensures
        skip == ignored(ignores.deep_view(), name@, markers.deep_view()),
{
    let mut i: usize = 0;
    while i < ignores.len()
        invariant
            i <= ignores.len(),
            forall|j: int|
                0 <= j < i ==> !pattern_matches(
                    #[trigger] ignores.deep_view()[j],
                    name@,
                    markers.deep_view(),
                ),
        decreases ignores.len() - i,
    {
        let pattern = ignores[i].as_str();
        let matched = same_text(pattern, name) || match marker_of(pattern) {
            Some(path) => listed(markers, path),
            None => false,
        };
        if matched {
            assert(pattern_matches(ignores.deep_view()[i as int], name@, markers.deep_view()));
            return true;
        }
        i += 1;
    }
    false
}

/// Lists what has to be looked up beneath each directory: the path of every
/// marker pattern, in the order of the patterns.
pub fn marker_paths(ignores: &Vec<String>) -> (paths: Vec<String>)
    ensures
        paths.deep_view() == marker_paths_of(ignores.deep_view()),
{
    let mut paths: Vec<String> = Vec::new();
    let mut i: usize = 0;
    while i < ignores.len()
        invariant
            i <= ignores.len(),
            paths.deep_view() == marker_paths_of(ignores.deep_view().take(i as int)),
        decreases ignores.len() - i,
    {
        let pattern = ignores[i].as_str();
        proof {
            let all = ignores.deep_view();
            assert(all.take(i + 1).drop_last() == all.take(i as int));
        }
        if let Some(path) = marker_of(pattern) {
            let ghost before = paths.deep_view();
            paths.push(String::from_str(path));
        }
        i += 1;
    }
    assert(ignores.deep_view().take(ignores.len() as int) == ignores.deep_view());
    paths
}

/// The number of bytes before the first line feed of `bytes`, or the number
/// of all of them where there is none.
pub open spec fn line_len(bytes: Seq<u8>) -> nat
    decreases bytes.len(),
{
    if bytes.len() == 0 || bytes[0] == 10 {
        0
    } else {
        1 + line_len(bytes.drop_first())
    }
}

/// A line without the carriage return that ends it, if one does.
pub open spec fn without_cr(line: Seq<u8>) -> Seq<u8> {
    if line.len() > 0 && line.last() == 13 {
        line.drop_last()
    } else {
        line
    }
}

/// The lines of a file. A line ends with a line feed, or with a carriage
/// return and a line feed, neither of which belongs to it. What follows the
/// last line feed is a line too, unless it is empty; it keeps a carriage
/// return at its end.
pub open spec fn split_lines(bytes: Seq<u8>) -> Seq<Seq<u8>>
    decreases bytes.len(),
{
    let len = line_len(bytes);
    if bytes.len() == 0 {
        Seq::empty()
    } else if len >= bytes.len() {
        seq![bytes]
    } else {
        seq![without_cr(bytes.take(len as int))] + split_lines(bytes.skip(len as int + 1))
    }
}

/// The pattern that a line declares: its text, unless the line is not
/// UTF-8, is empty, or begins with `#`.
pub open spec fn pattern_of_line(line: Seq<u8>) -> Option<Seq<char>> {
    let text = decode_utf8(line);
    if valid_utf8(line) && text.len() > 0 && text[0] != '#' {
        Some(text)
    } else {
        None
    }
}

/// The patterns that an ignore file declares, in the order of its lines.
pub open spec fn patterns_of(content: Seq<u8>) -> Seq<Seq<char>> {
    split_lines(content).filter_map(|line: Seq<u8>| pattern_of_line(line))
}

/// Where a line ends: after `count` bytes that are no line feed, at a line
/// feed or at the end.
proof fn lemma_line_len(bytes: Seq<u8>, count: int)
    requires
        0 <= count <= bytes.len(),
        forall|j: int| 0 <= j < count ==> bytes[j] != 10,
        count < bytes.len() ==> bytes[count] == 10,
    ensures
        line_len(bytes) == count,
    decreases count,
{
    if count > 0 {
        lemma_line_len(bytes.drop_first(), count - 1);
    }
}

/// `String::from_utf8` of the standard library: the text that `bytes`
/// encode. There is one exactly when the bytes are well-formed UTF-8, and
/// it is then the text whose encoding they are.
#[verifier::external_body]
fn text_of(bytes: Vec<u8>) -> (text: Option<String>)
    ensures
        text is Some <==> valid_utf8(bytes@),
        text matches Some(decoded) ==> decoded@ == decode_utf8(bytes@),
{
    match String::from_utf8(bytes) {
        Ok(decoded) => Some(decoded),
        Err(_) => None,
    }
}

/// Adds the pattern of the line `content[from..to]` to `patterns`, if it
/// declares one.
fn keep_line(content: &[u8], from: usize, to: usize, patterns: &mut Vec<String>)
    requires
        from <= to <= content.len(),
    ensures
        final(patterns).deep_view() == old(patterns).deep_view() + (match pattern_of_line(
            content@.subrange(from as int, to as int),
        ) {
            Some(text) => seq![text],
            None => Seq::empty(),
        }),
{
    let ghost before = patterns.deep_view();
    let line = slice_to_vec(slice_subrange(content, from, to));
    if let Some(text) = text_of(line) {
        if !text.as_str().is_empty() && text.as_str().get_char(0) != '#' {
            patterns.push(text);
            return ;
        }
    }
}

/// Reads the patterns out of the bytes of an ignore file.
///
/// Every line declares one pattern, its text as it stands: blanks around it
/// belong to it. Lines that are empty or begin with `#` declare none, and a
/// line that is not UTF-8 is passed over.
pub fn parse_ignore_list(content: &[u8]) -> (patterns: Vec<String>)
    ensures
        patterns.deep_view() == patterns_of(content@),
{
    let ghost all = content@;
    let ghost declared = |line: Seq<u8>| pattern_of_line(line);
    let ghost mut done: Seq<Seq<u8>> = Seq::empty();
    let mut patterns: Vec<String> = Vec::new();
    let mut start: usize = 0;
    let mut i: usize = 0;
    assert(all.skip(0) == all);
    while i < content.len()
        invariant
            start <= i <= content.len(),
            all == content@,
            declared == |line: Seq<u8>| pattern_of_line(line),
            forall|j: int| start <= j < i ==> all[j] != 10,
            split_lines(all) == done + split_lines(all.skip(start as int)),
            patterns.deep_view() == done.filter_map(declared),
        decreases content.len() - i,
    {
        if content[i] == 10 {
            let mut end = i;
            if end > start && content[end - 1] == 13 {
                end = end - 1;
            }
            keep_line(content, start, end, &mut patterns);
            proof {
                let rest = all.skip(start as int);
                let line = all.subrange(start as int, end as int);
                lemma_line_len(rest, i - start);
                assert(rest.take(i - start) == all.subrange(start as int, i as int));
                assert(without_cr(all.subrange(start as int, i as int)) == line);
                assert(rest.skip(i - start + 1) == all.skip(i + 1));
                assert(done.push(line).drop_last() == done);
                assert(done + (seq![line] + split_lines(all.skip(i + 1))) == done.push(line)
                    + split_lines(all.skip(i + 1)));
                done = done.push(line);
            }
            start = i + 1;
        }
        i += 1;
    }
    if start < content.len() {
        keep_line(content, start, content.len(), &mut patterns);
        proof {
            let rest = all.skip(start as int);
            lemma_line_len(rest, rest.len() as int);
            assert(done.push(rest).drop_last() == done);
            done = done.push(rest);
        }
    }
    assert(split_lines(all) == done);
    patterns
}

} // verus!
