use roped::tokens::next_token;
use roped::tokens::split_at_char;
use roped::tokens::trim_chars;

fn tok_chars(s: &str) -> Vec<char> {
    s.chars().collect()
}

fn tok_string(v: &[char]) -> String {
    v.iter().collect()
}

#[test]
fn trim_chars_both_ends() {
    let input = tok_chars("  hello  ");
    let class = [' '];
    let out = trim_chars(input.as_slice(), &class);
    assert_eq!(tok_string(out), "hello");
}

#[test]
fn trim_chars_all_class() {
    let input = tok_chars("   ");
    let class = [' '];
    let out = trim_chars(input.as_slice(), &class);
    assert_eq!(out.len(), 0);
}

#[test]
fn trim_chars_noop_when_trimmed() {
    let input = tok_chars("a b");
    let class = [' '];
    let out = trim_chars(input.as_slice(), &class);
    assert_eq!(tok_string(out), "a b");
}

#[test]
fn next_token_splits_first() {
    let input = tok_chars("  one  two three ");
    let class = [' '];
    let (tok, rest) = next_token(input.as_slice(), &class).unwrap();
    assert_eq!(tok_string(tok), "one");
    assert_eq!(tok_string(rest), "two three");
}

#[test]
fn next_token_single() {
    let input = tok_chars("one");
    let class = [' '];
    let (tok, rest) = next_token(input.as_slice(), &class).unwrap();
    assert_eq!(tok_string(tok), "one");
    assert_eq!(rest.len(), 0);
}

#[test]
fn next_token_empty_after_trim() {
    let input = tok_chars("   ");
    let class = [' '];
    assert!(next_token(input.as_slice(), &class).is_none());
}

#[test]
fn split_at_char_finds_separator() {
    let input = tok_chars("a b;c d");
    let class = [';'];
    let (residue, first) = split_at_char(input.as_slice(), &class);
    assert_eq!(tok_string(first), "a b");
    assert_eq!(tok_string(residue), ";c d");
}

#[test]
fn split_at_char_no_separator() {
    let input = tok_chars("a b c");
    let class = [';'];
    let (residue, first) = split_at_char(input.as_slice(), &class);
    assert_eq!(tok_string(first), "a b c");
    assert_eq!(residue.len(), 0);
}

#[test]
fn split_at_char_merges_leading_separators() {
    let input = tok_chars(";;a;b");
    let class = [';'];
    let (residue, first) = split_at_char(input.as_slice(), &class);
    assert_eq!(tok_string(first), "a");
    assert_eq!(tok_string(residue), ";b");
}

fn tokenize_all(text: &str, class: &[char]) -> Vec<String> {
    let buf = tok_chars(text);
    let mut out: Vec<String> = Vec::new();
    let mut cur: Vec<char> = trim_chars(buf.as_slice(), class).to_vec();
    loop {
        match next_token(cur.as_slice(), class) {
            None => break,
            Some((tok, rest)) => {
                out.push(tok_string(tok));
                let next: Vec<char> = rest.to_vec();
                cur = next;
                if cur.is_empty() {
                    break;
                }
            }
        }
    }
    out
}

#[test]
fn retokenize_after_rejoin_is_identity() {
    let class = [' ', '\t'];
    let text = "  alpha \t beta   gamma\t";
    let toks = tokenize_all(text, &class);
    assert_eq!(toks, vec!["alpha", "beta", "gamma"]);
    let rejoined = toks.join(" ");
    let toks2 = tokenize_all(&rejoined, &class);
    assert_eq!(toks2, toks);
}

#[test]
fn only_whitespace_yields_zero_tokens() {
    let class = [' ', '\t'];
    assert_eq!(tokenize_all(" \t  \t ", &class).len(), 0);
}
