use lib::text::{find_at, lines_of, split_at, to_chars, trim_at, words_at, Sep};

fn spans_text(v: &[char], spans: &[(usize, usize)]) -> Vec<String> {
    spans.iter().map(|&(a, b)| v[a..b].iter().collect()).collect()
}

/// Every string over a small alphabet up to the given length.
fn all_strings(alphabet: &[char], max_len: usize) -> Vec<String> {
    let mut out = vec![String::new()];
    let mut layer = vec![String::new()];
    for _ in 0..max_len {
        let mut next = Vec::new();
        for s in &layer {
            for c in alphabet {
                let mut t = s.clone();
                t.push(*c);
                next.push(t);
            }
        }
        out.extend(next.iter().cloned());
        layer = next;
    }
    out
}

#[test]
fn lines_match_std() {
    for s in all_strings(&['a', '\r', '\n', ' '], 6) {
        let v = to_chars(&s);
        let got = spans_text(&v, &lines_of(&v));
        let want: Vec<String> = s.lines().map(|l| l.to_string()).collect();
        assert_eq!(got, want, "{:?}", s);
    }
}

#[test]
fn trim_split_and_words_match_std() {
    for s in all_strings(&['a', ',', ' ', '\u{3000}'], 6) {
        let v = to_chars(&s);
        let (a, b) = trim_at(&v, 0, v.len());
        assert_eq!(v[a..b].iter().collect::<String>(), s.trim(), "{:?}", s);
        let got = spans_text(&v, &split_at(&v, 0, v.len(), &Sep::Char(',')));
        let want: Vec<String> = s.split(',').map(|p| p.to_string()).collect();
        assert_eq!(got, want, "{:?}", s);
        let got = spans_text(&v, &words_at(&v, 0, v.len()));
        let want: Vec<String> = s.split_whitespace().map(|p| p.to_string()).collect();
        assert_eq!(got, want, "{:?}", s);
    }
}

#[test]
fn find_matches_std() {
    for s in all_strings(&['u', 'p', ' '], 7) {
        let v = to_chars(&s);
        let p = to_chars("up ");
        let got = find_at(&v, 0, v.len(), &p);
        assert_eq!(got, s.find("up "), "{:?}", s);
    }
}
