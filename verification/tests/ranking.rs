use astatine::catalog::{Application, Catalog, Icon};
use astatine::ranking::{rank, rank_positions, rank_scores, score_entries};
use astatine::scoring::{fits_scorer, MAX_QUERY_CHARS};
use fuzzy_matcher::skim::SkimMatcherV2;
use fuzzy_matcher::FuzzyMatcher;

fn app(name: &str, command: &str) -> Application {
    Application {
        name: name.to_string(),
        command: command.to_string(),
        icon: Icon::Svg("/icons/default.svg".to_string()),
    }
}

fn catalog_of(pairs: &[(&str, &str)]) -> Catalog {
    let apps: Vec<Application> = pairs.iter().map(|(n, c)| app(n, c)).collect();
    Catalog::from_applications(&apps)
}

fn names(view: &[Application]) -> Vec<String> {
    view.iter().map(|a| a.name.clone()).collect()
}

fn commands(view: &[Application]) -> Vec<String> {
    view.iter().map(|a| a.command.clone()).collect()
}

#[test]
fn empty_query_returns_the_catalog_unchanged() {
    let catalog = catalog_of(&[
        ("Terminal", "alacritty"),
        ("Firefox", "firefox"),
        ("Files", "nautilus"),
    ]);
    let view = rank(&catalog, "");
    assert_eq!(names(&view), vec!["Terminal", "Firefox", "Files"]);
    assert_eq!(commands(&view), vec!["alacritty", "firefox", "nautilus"]);
    assert_eq!(rank_positions(&catalog, ""), vec![0, 1, 2]);
}

#[test]
fn empty_query_on_empty_catalog() {
    let catalog = Catalog::new();
    assert!(rank(&catalog, "").is_empty());
    assert!(rank(&catalog, "fi").is_empty());
    assert!(rank_positions(&catalog, "").is_empty());
}

#[test]
fn entries_that_do_not_match_are_left_out() {
    let catalog = catalog_of(&[
        ("Firefox", "firefox"),
        ("Files", "nautilus"),
        ("Terminal", "alacritty"),
    ]);
    let view = rank(&catalog, "fi");
    let found = names(&view);
    assert_eq!(found.len(), 2);
    assert!(found.contains(&"Firefox".to_string()));
    assert!(found.contains(&"Files".to_string()));
    assert!(!found.contains(&"Terminal".to_string()));
}

#[test]
fn query_that_matches_nothing_gives_an_empty_view() {
    let catalog = catalog_of(&[("Firefox", "firefox"), ("Files", "nautilus")]);
    assert!(rank(&catalog, "zzz").is_empty());
    assert!(rank_positions(&catalog, "zzz").is_empty());
}

#[test]
fn scores_are_those_of_the_matcher() {
    let catalog = catalog_of(&[
        ("Firefox", "firefox"),
        ("Files", "nautilus"),
        ("Terminal", "alacritty"),
        ("axbycz", "a"),
        ("abc", "b"),
    ]);
    let matcher = SkimMatcherV2::default();
    for query in ["fi", "abc", "abx", "Fi", "t", "xyz", "e"] {
        let scores = score_entries(&catalog, query);
        assert_eq!(scores.len(), 5);
        for (k, entry) in catalog.entries().iter().enumerate() {
            assert_eq!(scores[k], matcher.fuzzy_match(&entry.name, query));
        }
    }
    // The name is what is searched, the query what is looked for.
    let scores = score_entries(&catalog, "abc");
    assert!(scores[3].is_some());
    assert!(scores[4].is_some());
    assert_eq!(scores[0], None);
    let scores = score_entries(&catalog, "abx");
    assert_eq!(scores[4], None);
}

#[test]
fn better_score_comes_first() {
    let catalog = catalog_of(&[
        ("sprintf", "one"),
        ("printf", "two"),
        ("nothing here", "three"),
    ]);
    let matcher = SkimMatcherV2::default();
    let late = matcher.fuzzy_match("sprintf", "print").unwrap();
    let early = matcher.fuzzy_match("printf", "print").unwrap();
    assert!(early > late);
    assert_eq!(matcher.fuzzy_match("nothing here", "print"), None);
    let view = rank(&catalog, "print");
    assert_eq!(names(&view), vec!["printf", "sprintf"]);
    assert_eq!(rank_positions(&catalog, "print"), vec![1, 0]);
}

#[test]
fn equal_scores_keep_catalog_order() {
    let catalog = catalog_of(&[
        ("Terminal", "alacritty"),
        ("Editor", "gedit"),
        ("Terminal", "kitty"),
        ("Terminal", "xterm"),
        ("Editor", "kate"),
    ]);
    let view = rank(&catalog, "term");
    assert_eq!(commands(&view), vec!["alacritty", "kitty", "xterm"]);
    let view = rank(&catalog, "edit");
    assert_eq!(commands(&view), vec!["gedit", "kate"]);
    let view = rank(&catalog, "t");
    let order = rank_positions(&catalog, "t");
    let scores = score_entries(&catalog, "t");
    for w in order.windows(2) {
        let (a, b) = (w[0], w[1]);
        assert!(scores[a] > scores[b] || (scores[a] == scores[b] && a < b));
    }
    assert_eq!(view.len(), order.len());
}

#[test]
fn rank_scores_orders_by_score_then_position() {
    assert_eq!(rank_scores(&vec![Some(5), None, Some(7), Some(5)]), vec![2, 0, 3]);
    assert_eq!(rank_scores(&vec![]), Vec::<usize>::new());
    assert_eq!(rank_scores(&vec![None, None]), Vec::<usize>::new());
    assert_eq!(rank_scores(&vec![Some(1), Some(2), Some(3)]), vec![2, 1, 0]);
    assert_eq!(rank_scores(&vec![Some(3), Some(2), Some(1)]), vec![0, 1, 2]);
    assert_eq!(rank_scores(&vec![Some(4), Some(4), Some(4), Some(4)]), vec![0, 1, 2, 3]);
    assert_eq!(
        rank_scores(&vec![Some(-1), Some(0), None, Some(-1), Some(i64::MAX), Some(i64::MIN), Some(0)]),
        vec![4, 1, 6, 0, 3, 5]
    );
}

#[test]
fn rank_scores_agrees_with_a_stable_sort() {
    let mut seed: u64 = 0x2545F4914F6CDD1D;
    for len in 0..40usize {
        let mut scores: Vec<Option<i64>> = Vec::new();
        for _ in 0..len {
            seed ^= seed << 13;
            seed ^= seed >> 7;
            seed ^= seed << 17;
            let draw = seed % 7;
            scores.push(if draw == 0 { None } else { Some((draw % 4) as i64 - 2) });
        }
        let mut expected: Vec<(i64, usize)> = scores
            .iter()
            .enumerate()
            .filter_map(|(i, s)| s.map(|v| (v, i)))
            .collect();
        expected.sort_by(|a, b| b.0.cmp(&a.0));
        let expected: Vec<usize> = expected.into_iter().map(|(_, i)| i).collect();
        assert_eq!(rank_scores(&scores), expected);
    }
}

#[test]
fn view_holds_the_entries_at_the_ranked_positions() {
    let catalog = catalog_of(&[
        ("Firefox", "firefox"),
        ("Files", "nautilus"),
        ("Terminal", "alacritty"),
        ("Fish shell", "fish"),
    ]);
    for query in ["", "f", "fi", "i", "term", "sh", "q"] {
        let order = rank_positions(&catalog, query);
        let view = rank(&catalog, query);
        assert_eq!(view.len(), order.len());
        for (k, &i) in order.iter().enumerate() {
            assert_eq!(view[k].name, catalog.entries()[i].name);
            assert_eq!(view[k].command, catalog.entries()[i].command);
            assert_eq!(view[k].icon.path(), catalog.entries()[i].icon.path());
        }
    }
}

#[test]
fn fits_scorer_at_the_limit() {
    assert_eq!(MAX_QUERY_CHARS, 1_048_576);
    assert!(fits_scorer(""));
    assert!(fits_scorer("firefox"));
    let at_limit = "a".repeat(MAX_QUERY_CHARS);
    assert!(fits_scorer(&at_limit));
    let over = "a".repeat(MAX_QUERY_CHARS + 1);
    assert!(!fits_scorer(&over));
    // The limit counts characters, not bytes.
    let wide = "é".repeat(MAX_QUERY_CHARS);
    assert!(fits_scorer(&wide));
}
