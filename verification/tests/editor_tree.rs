use rust_labs::even_iter::{even, EvenIter};
use rust_labs::grep::GrepIter;
use rust_labs::line_editor::{FindIter, FindReplace, LazyFinder, LineEditor, Match};
use rust_labs::num_even_iter;
use rust_labs::tree::Tree;

#[test]
fn test_find_replace() {
    let s = "Hello World.\nA second line full of text.";
    let mut editor = LineEditor::new(s.to_string());

    let lines = editor.all_lines();
    let mut finder = FindReplace::new(lines.clone(), "ll");

    finder.apply(|mut m: Match| {
        println!("{} {} {} {}", m.line, m.start, m.end, m.text);
        m.repl = Some("--".to_string());
        (m, true)
    });

    let subs: Vec<(usize, usize, usize, String)> = finder
        .matches()
        .iter()
        .map(|m| (m.line, m.start, m.end, m.repl.clone().unwrap()))
        .collect();

    for (line, start, end, subst) in subs {
        editor.replace(line, start, end, &subst);
    }

    println!("{}", editor.all_lines().join("\n"));
}

#[test]
fn find_replace_rewrites_every_match() {
    let s = "Hello World.\nA second line full of text.";
    let mut editor = LineEditor::new(s.to_string());
    let lines = editor.all_lines();
    let mut finder = FindReplace::new(lines, "ll");
    assert_eq!(finder.matches().len(), 2);
    assert_eq!((finder.matches()[0].line, finder.matches()[0].start, finder.matches()[0].end), (0, 2, 4));
    assert_eq!(finder.matches()[1].text, "ll");
    finder.apply(|mut m: Match| {
        m.repl = Some("--".to_string());
        (m, true)
    });
    let subs: Vec<(usize, usize, usize, String)> = finder
        .matches()
        .iter()
        .map(|m| (m.line, m.start, m.end, m.repl.clone().unwrap()))
        .collect();
    for (line, start, end, subst) in subs {
        editor.replace(line, start, end, &subst);
    }
    assert_eq!(editor.all_lines(), ["He--o World.", "A second line fu-- of text."]);
    assert!(FindReplace::try_new(vec!["x"], "(").is_none());
}

#[test]
fn test_lazy_finder() {
    let s = "Hello World.\nA second line full of text.";
    let editor = LineEditor::new(s.to_string());

    let lines = editor.all_lines();
    let mut finder = LazyFinder::new(lines, "ll");

    while let Some(m) = finder.next() {
        println!("{} {} {} {}", m.line, m.start, m.end, m.text);
    }
}

#[test]
fn lazy_finder_reports_first_matches() {
    let lines = vec!["Hello World.", "A second line full of text."];
    let mut finder = LazyFinder::new(lines, "ll");
    let first = finder.next().unwrap();
    assert_eq!((first.line, first.start, first.end, first.text), (0, 2, 4, "ll"));
    let second = finder.next().unwrap();
    assert_eq!((second.line, second.start, second.end), (1, 16, 18));
    assert!(finder.next().is_none());
    let mut twice = LazyFinder::new(vec!["ll", "ll"], "ll");
    let a = twice.next().unwrap();
    assert_eq!((a.line, a.start, a.end), (0, 0, 2));
    let b = twice.next().unwrap();
    assert_eq!((b.line, b.start, b.end), (1, 0, 2));
    assert!(twice.next().is_none());
    let mut many = LazyFinder::new(vec!["aXaXa", "", "Xa"], "a");
    let mut found = Vec::new();
    while let Some(m) = many.next() {
        found.push((m.line, m.start, m.end));
    }
    assert_eq!(found, vec![(0, 0, 1), (0, 2, 3), (0, 4, 5), (2, 1, 2)]);
    let mut broken = LazyFinder::new(vec!["a"], "(");
    assert!(broken.try_next().is_none());
}

#[test]
fn test_find_iter() {
    let s = "Hello World.\nA second line full of text.";
    let editor = LineEditor::new(s.to_string());

    let lines = editor.all_lines();
    let mut finder = FindIter::new(lines, "ll");

    while let Some(m) = finder.next() {
        println!("{} {} {} {}", m.line, m.start, m.end, m.text);
    }
}

#[test]
fn find_iter_walks_all_matches() {
    let mut finder = FindIter::new(vec!["aXaXa", "", "Xa"], "a");
    let mut found = Vec::new();
    while let Some(m) = finder.next() {
        found.push((m.line, m.start, m.end));
    }
    assert_eq!(found, vec![(0, 0, 1), (0, 2, 3), (0, 4, 5), (2, 1, 2)]);
    assert!(FindIter::try_new(vec!["x"], "[").is_none());
}

#[test]
fn editor_creation() {
    let ed = LineEditor::new(String::from("Hello\nworld\n!"));
    assert_eq!(ed.all_lines(), ["Hello", "world", "!"]);
}

#[test]
fn editor_lines_and_replace() {
    let mut ed = LineEditor::new(String::from("one\r\ntwo\n\nthree\n"));
    assert_eq!(ed.all_lines(), ["one", "two", "", "three"]);
    ed.replace(1, 1, 2, "WW");
    ed.replace(9, 0, 0, "ignored");
    assert_eq!(ed.all_lines(), ["one", "tWWo", "", "three"]);
}

#[test]
fn test_simple_even_iter() {
    let v = vec![1, 2, 3, 4, 5];
    let mut it = EvenIter::new(v);

    while let Some(i) = it.next() {
        println!("i: {}", i);
    }
}

#[test]
fn test_adapter() {
    let v = vec![1, 2, 3, 4, 5];
    let mut it = even(v);
    while let Some(i) = it.next() {
        println!("{}", i);
    }
}

#[test]
fn even_values_only() {
    let mut it = even(vec![1, -2, 3, 4, 7, 9]);
    assert_eq!(it.next(), Some(-2));
    assert_eq!(it.next(), Some(4));
    assert_eq!(it.next(), None);
}

#[test]
fn test_even_iter() {
    let v: Vec<u64> = vec![1, 2, 3, 4, 5];
    let mut it = num_even_iter::EvenIter::new(v);
    while let Some(i) = it.next() {
        println!("i: {}", i);
    }
}

#[test]
fn num_even_iter_takes_value_after_odd() {
    let mut it = num_even_iter::EvenIter::new(vec![2, 3, 5, 7, 8]);
    assert_eq!(it.next(), Some(2));
    assert_eq!(it.next(), Some(5));
    assert_eq!(it.next(), Some(8));
    assert_eq!(it.next(), None);
}

#[test]
fn test_add() {
    let mut tree = Tree::new("test");
    tree.add("test", "son1");
    tree.add("test", "son2");
    tree.add("son2", "son3");

    println!("Test add: {}", tree.to_string());
}

#[test]
fn test_remove() {
    let mut tree = Tree::new("test");
    tree.add("test", "son1");
    tree.add("son1", "son2");
    tree.add("son2", "son3");
    tree.add("son2", "son4");
    tree.add("son1", "son5");

    tree.remove("son1");

    assert_eq!(tree.to_string(), "{\"test\": Node { on: false, father: None }}");
}

#[test]
fn test_on_off() {
    let mut tree = Tree::new("test");
    tree.add("test", "son1");
    tree.add("son1", "son2");
    tree.add("son2", "son3");
    tree.add("son2", "son4");
    tree.add("son1", "son5");

    tree.toggle("son1");
    assert_eq!(false, tree.peek("son1"));

    tree.toggle("test");
    tree.toggle("son1");
    tree.toggle("son2");
    assert_eq!(true, tree.peek("son1"));
    assert_eq!(true, tree.peek("son2"));
}

#[test]
fn tree_rendering_and_toggle_rules() {
    let mut tree = Tree::new("root");
    tree.add("root", "a");
    tree.add("missing", "b");
    assert_eq!(
        tree.to_string(),
        "{\"root\": Node { on: false, father: None }, \"a\": Node { on: false, father: Some(\"root\") }}"
    );
    assert!(!tree.toggle("b"));
    assert!(tree.toggle("root"));
    assert!(tree.toggle("a"));
    assert!(!tree.toggle("root"));
    assert!(!tree.toggle("a"));
    assert!(!tree.peek("a"));
    tree.remove("root");
    assert_eq!(tree.to_string(), "{}");
}

#[test]
fn grep_reports_first_matching_line() {
    let g = GrepIter::new_with_grep("xx").unwrap();
    let m = g.grep_entry("f.txt".to_string(), Some("abc\nzxxz\nxx")).unwrap();
    assert_eq!((m.file.as_str(), m.line, m.text.as_str()), ("f.txt", 1, "Match"));
    assert!(g.grep_entry("g.txt".to_string(), Some("none here")).is_none());
    let e = g.grep_entry("h.bin".to_string(), None).unwrap();
    assert_eq!((e.line, e.text.as_str()), (0, "Error"));
    let all = GrepIter::new().unwrap();
    let first = all.grep_entry("a".to_string(), Some("q")).unwrap();
    assert_eq!(first.line, 0);
    assert!(GrepIter::new_with_grep("(").is_none());
}
