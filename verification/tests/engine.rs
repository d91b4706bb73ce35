use one_brc::engine::run;
use one_brc::model;
use one_brc::shard::split_shards;

fn output(input: &[u8], workers: usize) -> (String, usize, usize) {
    let (out, _, lines, errors) = run(input, workers);
    (String::from_utf8(out).unwrap(), lines, errors)
}

#[test]
fn scenario_single_line() {
    let (s, lines, errors) = output(b"Brussels;14.9\n", 1);
    assert_eq!("{Brussels=14.9/14.9/14.9}", s);
    assert_eq!(1, lines);
    assert_eq!(0, errors);
}

#[test]
fn scenario_one_key_three_lines() {
    let (s, lines, errors) = output(b"A;1.0\nA;2.0\nA;3.0\n", 1);
    assert_eq!("{A=1.0/2.0/3.0}", s);
    assert_eq!(3, lines);
    assert_eq!(0, errors);
}

#[test]
fn scenario_two_keys() {
    let (s, _, _) = output(b"A;1.0\nB;2.0\nA;3.0\n", 1);
    assert_eq!("{A=1.0/2.0/3.0, B=2.0/2.0/2.0}", s);
}

#[test]
fn scenario_raw_byte_order() {
    let input = "愛媛県今治市;20.8\nBrussels;14.9\nМосква;16.7\n";
    let (s, _, _) = output(input.as_bytes(), 1);
    assert_eq!(
        "{Brussels=14.9/14.9/14.9, Москва=16.7/16.7/16.7, 愛媛県今治市=20.8/20.8/20.8}",
        s
    );
}

#[test]
fn scenario_mean_rounds_toward_positive() {
    // mean 0.15 prints as 0.2
    let (s, _, _) = output(b"X;0.1\nX;0.2\n", 1);
    assert_eq!("{X=0.1/0.2/0.2}", s);
}

#[test]
fn negative_mean_rounds_toward_positive() {
    // mean -0.15 prints as -0.1
    let (s, _, _) = output(b"N;-0.1\nN;-0.2\n", 1);
    assert_eq!("{N=-0.2/-0.1/-0.1}", s);
}

#[test]
fn scenario_bad_line_counted_not_printed() {
    let (s, lines, errors) = output(b"bad;234234;234234\nok;1.0\n", 1);
    assert_eq!("{ok=1.0/1.0/1.0}", s);
    assert_eq!(2, lines);
    assert_eq!(1, errors);
}

#[test]
fn empty_input_gives_empty_output() {
    let (s, lines, errors) = output(b"", 1);
    assert_eq!("{}", s);
    assert_eq!(0, lines);
    assert_eq!(0, errors);
}

#[test]
fn no_final_newline_drops_partial_line() {
    let with_newline = output(b"A;1.0\n", 4);
    let partial = output(b"A;1.0\nB;2.0", 4);
    assert_eq!(with_newline.0, partial.0);
    assert_eq!(1, partial.1);
    assert_eq!(0, partial.2);
}

#[test]
fn worker_count_does_not_change_output() {
    let mut input = Vec::new();
    for i in 0..200 {
        input.extend_from_slice(format!("st{};{}.{}\n", i % 17, i % 90, i % 10).as_bytes());
    }
    let one = output(&input, 1);
    for workers in [2usize, 3, 4, 7, 16, 64, 200] {
        let many = output(&input, workers);
        assert_eq!(one, many, "workers = {workers}");
    }
}

#[test]
fn shard_boundaries_never_cut_lines() {
    let mut input = Vec::new();
    for i in 0..100 {
        input.extend_from_slice(format!("station-{i};1.{}\n", i % 10).as_bytes());
    }
    for workers in [1usize, 2, 3, 5, 8] {
        let shards = split_shards(&input, workers);
        assert!(!shards.is_empty());
        assert_eq!(0, shards[0].0);
        assert_eq!(input.len(), shards[shards.len() - 1].1);
        let mut rebuilt = Vec::new();
        for (i, &(b, e)) in shards.iter().enumerate() {
            assert!(b < e, "no shard is empty");
            if i + 1 < shards.len() {
                assert_eq!(shards[i + 1].0, e, "shards are contiguous");
                assert_eq!(model::NL, input[e - 1], "every non-final shard ends on a terminator");
            }
            rebuilt.extend_from_slice(&input[b..e]);
        }
        assert_eq!(input, rebuilt, "the shards concatenate to the input");
    }
}

#[test]
fn aligned_and_walked_back_boundaries_agree() {
    // two inputs with the same lines; worker counts chosen so the
    // tentative cut falls both exactly on and inside a line
    let mut input = Vec::new();
    for i in 0..50 {
        input.extend_from_slice(format!("k{};{}.0\n", i % 5, i % 10).as_bytes());
    }
    let reference = output(&input, 1);
    for workers in 1..=20 {
        assert_eq!(reference, output(&input, workers));
    }
}

#[test]
fn totals_are_sums_over_shards() {
    let mut input = Vec::new();
    for i in 0..60 {
        if i % 7 == 0 {
            input.extend_from_slice(b"oops\n");
        } else {
            input.extend_from_slice(format!("s{};2.5\n", i % 4).as_bytes());
        }
    }
    let shards = split_shards(&input, 6);
    let mut lines_sum = 0;
    let mut errors_sum = 0;
    for &(b, e) in shards.iter() {
        let (_, l, er) = one_brc::block::process_block(&input[b..e], 16);
        lines_sum += l;
        errors_sum += er;
    }
    let (_, lines, errors) = output(&input, 6);
    assert_eq!(lines, lines_sum);
    assert_eq!(errors, errors_sum);
    assert_eq!(60, lines);
    assert_eq!(9, errors);
}
