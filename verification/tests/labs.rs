use rust_labs::game::{evaluate, mk_ops, prepare, verify_chunk, verify_chunk_bounds, verify_one, NUM_THREADS};
use rust_labs::node::{mul, MulErr, Node};
use rust_labs::pangram::{conv, count_letters, is_pangram};
use rust_labs::primes::{claim, is_prime, primes_in_stride};
use rust_labs::slug::{slug_of_lowercase, slugify, Slug};

#[test]
fn test_all_ones() {
    let counts = [1; 26];
    assert!(is_pangram(&counts));
}

#[test]
fn test_some_zeros() {
    let mut counts = [0; 26];
    counts[0] = 0;
    counts[1] = 0;
    assert!(!is_pangram(&counts));
}

#[test]
fn test_increasing_counts() {
    let mut counts = [0; 26];
    for i in 0..26 {
        counts[i] = i as u32 + 1;
    }
    assert!(is_pangram(&counts));
}

#[test]
fn test_wrong_size() {
    let counts = [1; 25];
    assert!(!is_pangram(&counts));
}

#[test]
fn test_conv_valid_char() {
    assert_eq!('a', conv('a'));
    assert_eq!('1', conv('1'));
}

#[test]
fn test_conv_invalid_char() {
    assert_eq!('-', conv('.'));
    assert_eq!('-', conv(','));
}

#[test]
fn test_conv_accent_chars() {
    assert_eq!('e', conv('è'));
    assert_eq!('e', conv('ę'));
}

#[test]
fn count_letters_of_a_pangram() {
    let counts = count_letters("thequickbrownfoxjumpsoverthelazydog");
    assert_eq!(counts[0], 1);
    assert_eq!(counts[4], 3);
    assert_eq!(counts[14], 4);
    assert!(is_pangram(&counts));
    let partial = count_letters("abcabc");
    assert_eq!(partial[2], 2);
    assert!(!is_pangram(&partial));
}

#[test]
fn test_node_creation() {
    let node = Node::new("test_node");
    assert_eq!(node.name, "test_node");
    assert_eq!(node.size, 0);
    assert_eq!(node.count, 0);
}

#[test]
fn test_node_methods() {
    let mut node = Node::new("node1");
    node.size(10).count(5);
    assert_eq!(node.size, 10);
    assert_eq!(node.count, 5);

    node.grow();
    node.inc();
    assert_eq!(node.size, 11);
    assert_eq!(node.count, 6);
}

#[test]
fn test_node_to_string() {
    let mut node = Node::new("test");
    node.size(3).count(7);
    assert_eq!(node.to_string(), "Name: test, size: 3, count: 7");
}

#[test]
fn test_mul_success() {
    assert_eq!(mul(5, 4), Ok(20));
    assert_eq!(mul(0, 100), Ok(0));
}

#[test]
fn test_mul_negative_number() {
    assert_eq!(mul(-5, 3), Err(MulErr::NegativeNumber));
    assert_eq!(mul(5, -3), Err(MulErr::NegativeNumber));
}

#[test]
fn test_mul_overflow() {
    assert_eq!(mul(i32::MAX, 2), Err(MulErr::Overflow));
}

#[test]
fn mul_of_two_negatives() {
    assert_eq!(mul(-6, -7), Ok(42));
    assert_eq!(mul(i32::MIN, -1), Err(MulErr::Overflow));
}

#[test]
fn slugs_of_texts() {
    assert_eq!(slugify("Hello String"), "hello-string");
    assert_eq!(slugify("Città  è bella!!"), "citta-e-bella-");
    assert_eq!(slug_of_lowercase("a..b"), "a-b");
    assert!(!"Hello String".is_slug());
    assert!("hello-slice".is_slug());
    assert_eq!(String::from("Hello String").to_slug(), "hello-string");
}

#[test]
fn primes_by_trial_division() {
    assert!(!is_prime(0));
    assert!(!is_prime(1));
    assert!(is_prime(2));
    assert!(is_prime(97));
    assert!(!is_prime(91));
    assert!(is_prime(1_000_000_007));
}

#[test]
fn strided_prime_search() {
    assert_eq!(primes_in_stride(1, 2, 20), vec![3, 5, 7, 11, 13, 17, 19]);
    assert_eq!(primes_in_stride(2, 2, 20), vec![2]);
    let mut next: u64 = 8;
    assert_eq!(claim(&mut next, 10), Some(8));
    assert_eq!(claim(&mut next, 10), Some(9));
    assert_eq!(claim(&mut next, 10), None);
    assert_eq!(next, 10);
    assert_eq!(primes_in_stride(u64::MAX - 30, 20, u64::MAX - 15), Vec::<u64>::new());
}

#[test]
fn test_mk_ops() {
    let symbols = vec!['+', '-', '*', '/'];
    let n = 4;
    let result = mk_ops(&symbols, n);
    assert_eq!(result.len(), symbols.len().pow(n as u32));

    let res = prepare("23423");
    println!("{} {:?}", res.len(), res.iter().take(n).collect::<Vec<_>>());
}

#[test]
fn operator_words_in_order() {
    let result = mk_ops(&['+', '-'], 2);
    assert_eq!(result, vec!["++", "+-", "-+", "--"]);
}

#[test]
fn expressions_worth_ten() {
    assert!(verify_one(&"2+3+4+2-1".to_string()));
    assert!(!verify_one(&"2*3+4+2-1".to_string()));
    let v = vec!["2+8".to_string(), "2*8".to_string(), "5*2".to_string()];
    assert_eq!(verify_chunk(&v), vec!["2+8".to_string(), "5*2".to_string()]);
    assert_eq!(verify_chunk_bounds(10, NUM_THREADS as usize, 1), (2, 4));
}

#[test]
fn expressions_evaluate_left_to_right() {
    assert_eq!(evaluate(&"2+3*4".to_string()), Some(20));
    assert_eq!(evaluate(&"9-9/2".to_string()), Some(0));
    assert_eq!(evaluate(&"1-9/2".to_string()), Some(-4));
    assert_eq!(evaluate(&"5/0".to_string()), None);
    assert_eq!(evaluate(&"5+".to_string()), None);
    assert_eq!(evaluate(&"5+a".to_string()), None);
    assert_eq!(evaluate(&"".to_string()), Some(0));
}

#[test]
fn prepare_interleaves_every_arrangement() {
    let res = prepare("12");
    assert_eq!(res.len(), 2 * 256);
    assert_eq!(res[0], "1+2+");
    assert_eq!(res[1], "1+2+");
    assert_eq!(res[16], "1+2-");
    assert_eq!(res[256], "2+1+");
    assert_eq!(res[511], "2/1/");
}
