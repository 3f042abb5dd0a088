use regex::Regex;

fn tag_count_model(s: &[char]) -> usize {
    let Some(i) = s.iter().position(|&c| c == '<') else { return 0 };
    let rest = &s[i + 1..];
    match rest.iter().position(|&c| c == '>') {
        None => 0,
        Some(0) => tag_count_model(rest),
        Some(j) => 1 + tag_count_model(&rest[j + 1..]),
    }
}

fn tags_removed_model(s: &[char]) -> Vec<char> {
    let Some(i) = s.iter().position(|&c| c == '<') else { return s.to_vec() };
    let rest = &s[i + 1..];
    match rest.iter().position(|&c| c == '>') {
        None => s.to_vec(),
        Some(j) => {
            let mut out = s[..i].to_vec();
            out.extend(tags_removed_model(&rest[j + 1..]));
            out
        }
    }
}

#[test]
fn tag_patterns_match_their_stated_results() {
    let count = Regex::new(r"<[^>]+>").unwrap();
    let remove = Regex::new(r"<[^>]*>").unwrap();
    let cases = [
        "", "plain", "<p>x</p>", "<>", "<><b>", "<<a>", "a < b", "a > b <", "<\n>", "<é>ü<>",
        "x<y<z>w>v", ">><<>>", "<p>one</p>\n<p>two</p>", "<<<>>>", "<a href=\"x\">l</a>",
    ];
    for case in cases {
        let chars: Vec<char> = case.chars().collect();
        assert_eq!(count.find_iter(case).count(), tag_count_model(&chars), "count of {:?}", case);
        let removed: String = tags_removed_model(&chars).into_iter().collect();
        assert_eq!(remove.replace_all(case, ""), removed, "removal in {:?}", case);
    }
}
