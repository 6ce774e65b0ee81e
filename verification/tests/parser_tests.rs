use bfjit::parser::{parse, pass_simplify, Node};

fn unparse(code: &[Node]) -> String {
    let mut text = String::new();
    for node in code {
        let (glyph, times) = match *node {
            Node::Increment(n) => ('+', if n == 0 { 256 } else { n as usize }),
            Node::Decrement(n) => ('-', if n == 0 { 256 } else { n as usize }),
            Node::Next(n) => ('>', n),
            Node::Prev(n) => ('<', n),
            Node::Write => ('.', 1),
            Node::Read => (',', 1),
            Node::LoopBegin => ('[', 1),
            Node::LoopEnd => (']', 1),
        };
        for _ in 0..times {
            text.push(glyph);
        }
    }
    text
}

fn same_counted_kind(a: &Node, b: &Node) -> bool {
    matches!(
        (a, b),
        (Node::Increment(_), Node::Increment(_))
            | (Node::Decrement(_), Node::Decrement(_))
            | (Node::Next(_), Node::Next(_))
            | (Node::Prev(_), Node::Prev(_))
    )
}

const SAMPLES: [&str; 8] = [
    "",
    "+",
    "+++>>-",
    "++--<<>>..,,[[]]",
    "++++++++[>++++++++<-]>+.",
    "+++++[>+++++[>++<-]<-]>>.",
    "a+b+c>d>e[f]g",
    "]]][[[+-+-+-><><",
];

#[test]
fn parse_folds_runs() {
    let code = parse("+++>>-").unwrap();
    assert_eq!(code, vec![Node::Increment(3), Node::Next(2), Node::Decrement(1)]);
}

#[test]
fn parse_maps_each_instruction_character() {
    let code = parse("+-><.,[]").unwrap();
    assert_eq!(
        code,
        vec![
            Node::Increment(1),
            Node::Decrement(1),
            Node::Next(1),
            Node::Prev(1),
            Node::Write,
            Node::Read,
            Node::LoopBegin,
            Node::LoopEnd,
        ]
    );
}

#[test]
fn parse_never_fails() {
    for source in SAMPLES {
        assert!(parse(source).is_ok());
    }
    assert!(parse("]").is_ok());
    assert!(parse("[").is_ok());
}

#[test]
fn parse_skips_comments() {
    let code = parse("add one: + \n then move > (twice) >").unwrap();
    assert_eq!(code, vec![Node::Increment(1), Node::Next(2)]);
}

#[test]
fn parse_skips_characters_outside_ascii() {
    let code = parse("é+ü+→>日本語<").unwrap();
    assert_eq!(code, vec![Node::Increment(2), Node::Next(1), Node::Prev(1)]);
}

#[test]
fn comment_only_source_is_the_empty_program() {
    assert_eq!(parse("").unwrap(), Vec::<Node>::new());
    assert_eq!(parse("no instructions here!\n\t 0123456789").unwrap(), Vec::<Node>::new());
}

#[test]
fn a_comment_between_two_runs_does_not_split_them() {
    assert_eq!(parse("++ x ++").unwrap(), vec![Node::Increment(4)]);
}

#[test]
fn unlike_kinds_do_not_cancel() {
    assert_eq!(parse("+-").unwrap(), vec![Node::Increment(1), Node::Decrement(1)]);
    assert_eq!(parse("><").unwrap(), vec![Node::Next(1), Node::Prev(1)]);
    assert_eq!(
        parse("+-+").unwrap(),
        vec![Node::Increment(1), Node::Decrement(1), Node::Increment(1)]
    );
}

#[test]
fn uncounted_instructions_do_not_fold() {
    assert_eq!(parse("..").unwrap(), vec![Node::Write, Node::Write]);
    assert_eq!(parse(",,").unwrap(), vec![Node::Read, Node::Read]);
    assert_eq!(parse("[[").unwrap(), vec![Node::LoopBegin, Node::LoopBegin]);
    assert_eq!(parse("]]").unwrap(), vec![Node::LoopEnd, Node::LoopEnd]);
}

#[test]
fn cell_counts_wrap_at_256() {
    assert_eq!(parse(&"+".repeat(255)).unwrap(), vec![Node::Increment(255)]);
    assert_eq!(parse(&"+".repeat(256)).unwrap(), vec![Node::Increment(0)]);
    assert_eq!(parse(&"+".repeat(257)).unwrap(), vec![Node::Increment(1)]);
    assert_eq!(parse(&"-".repeat(256)).unwrap(), vec![Node::Decrement(0)]);
    assert_eq!(parse(&"-".repeat(600)).unwrap(), vec![Node::Decrement(88)]);
}

#[test]
fn pointer_counts_do_not_wrap_at_256() {
    assert_eq!(parse(&">".repeat(256)).unwrap(), vec![Node::Next(256)]);
    assert_eq!(parse(&"<".repeat(1000)).unwrap(), vec![Node::Prev(1000)]);
}

#[test]
fn pointer_counts_wrap_at_the_machine_word() {
    let code = vec![Node::Next(usize::MAX), Node::Next(2)];
    assert_eq!(pass_simplify(&code), vec![Node::Next(1)]);
    let code = vec![Node::Prev(usize::MAX), Node::Prev(1)];
    assert_eq!(pass_simplify(&code), vec![Node::Prev(0)]);
}

#[test]
fn pass_simplify_merges_counts_of_any_size() {
    let code = vec![
        Node::Increment(200),
        Node::Increment(100),
        Node::Write,
        Node::Next(7),
        Node::Next(8),
        Node::Next(9),
        Node::Decrement(1),
    ];
    assert_eq!(
        pass_simplify(&code),
        vec![Node::Increment(44), Node::Write, Node::Next(24), Node::Decrement(1)]
    );
}

#[test]
fn pass_simplify_of_nothing_is_nothing() {
    assert_eq!(pass_simplify(&Vec::new()), Vec::<Node>::new());
}

#[test]
fn no_two_neighbours_of_one_counted_kind() {
    for source in SAMPLES {
        let code = parse(source).unwrap();
        for pair in code.windows(2) {
            assert!(!same_counted_kind(&pair[0], &pair[1]), "{:?} in {:?}", pair, source);
        }
    }
}

#[test]
fn folding_twice_is_folding_once() {
    for source in SAMPLES {
        let code = parse(source).unwrap();
        assert_eq!(pass_simplify(&code), code);
    }
}

#[test]
fn canonical_text_parses_back_to_the_program() {
    for source in SAMPLES {
        let code = parse(source).unwrap();
        assert_eq!(parse(&unparse(&code)).unwrap(), code);
    }
}

#[test]
fn a_count_wrapped_to_zero_is_written_as_256() {
    let code = parse(&"+".repeat(512)).unwrap();
    assert_eq!(code, vec![Node::Increment(0)]);
    assert_eq!(unparse(&code), "+".repeat(256));
    assert_eq!(parse(&unparse(&code)).unwrap(), code);
    let mixed = format!("{}>{}", "-".repeat(256), "+".repeat(257));
    let code = parse(&mixed).unwrap();
    assert_eq!(code, vec![Node::Decrement(0), Node::Next(1), Node::Increment(1)]);
    assert_eq!(parse(&unparse(&code)).unwrap(), code);
}

#[test]
fn folding_keeps_the_brackets() {
    for source in SAMPLES {
        let brackets: Vec<char> = source.chars().filter(|c| *c == '[' || *c == ']').collect();
        let code = parse(source).unwrap();
        let kept: Vec<char> = code
            .iter()
            .filter_map(|node| match node {
                Node::LoopBegin => Some('['),
                Node::LoopEnd => Some(']'),
                _ => None,
            })
            .collect();
        assert_eq!(kept, brackets);
    }
}
