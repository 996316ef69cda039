use aco_vrp::problem::{EdgeWeightType, Expected, ParseError, Problem, ProblemType};
use aco_vrp::scan::{match_line_end, match_tag, read_number, read_unsigned, scan, Class};

const INSTANCE: &str = "NAME : A-n32-k5\n\
COMMENT : (Augerat et al, No of trucks: 5, Optimal value: 784)\n\
TYPE : CVRP\n\
DIMENSION : 32\n\
EDGE_WEIGHT_TYPE : EUC_2D \n\
CAPACITY : 100\n\
NODE_COORD_SECTION \n 1 82 76\n 2 96 44\n 3 50 5\n 4 49 8\n 5 13 7\n 6 29 89\n 7 58 30\n 8 84 39\n \
9 14 24\n 10 2 39\n 11 3 82\n 12 5 10\n 13 98 52\n 14 84 25\n 15 61 59\n 16 1 65\n 17 88 51\n \
18 91 2\n 19 19 32\n 20 93 3\n 21 50 93\n 22 98 14\n 23 5 42\n 24 42 9\n 25 61 62\n 26 9 97\n \
27 80 55\n 28 57 69\n 29 23 15\n 30 20 70\n 31 85 60\n 32 98 5\n\
DEMAND_SECTION \n1 0 \n2 19 \n3 21 \n4 6 \n5 19 \n6 7 \n7 12 \n8 16 \n9 6 \n10 16 \n11 8 \n\
12 14 \n13 21 \n14 16 \n15 3 \n16 22 \n17 18 \n18 19 \n19 1 \n20 24 \n21 8 \n22 12 \n23 4 \n\
24 8 \n25 24 \n26 24 \n27 2 \n28 20 \n29 15 \n30 2 \n31 14 \n32 9 \n\
DEPOT_SECTION \n 1  \n -1  \nEOF \n";

const SMALL: &str = "NAME : tiny\nCOMMENT : (two nodes)\nTYPE : CVRP\nDIMENSION : 2\n\
EDGE_WEIGHT_TYPE : EUC_2D\nCAPACITY : 1\nNODE_COORD_SECTION\n 1 0 0\n 2 1 0\n\
DEMAND_SECTION\n1 0\n2 1\n";

fn stuck(text: &str) -> ParseError {
    Problem::try_from_vrp(text).unwrap_err()
}

fn at(position: usize, expected: Expected) -> ParseError {
    ParseError { position, expected }
}

#[test]
fn problem_test() {
    let problem = Problem::try_from_vrp(INSTANCE);
    assert!(problem.is_ok());
    let problem = problem.unwrap();

    assert_eq!(problem.name, b"A-n32-k5");
    assert_eq!(
        problem.comment,
        b"Augerat et al, No of trucks: 5, Optimal value: 784"
    );
    assert_eq!(problem.problem_type, ProblemType::Cvrp);
    assert_eq!(problem.dimension, 32);
    assert_eq!(problem.edge_weight_type, EdgeWeightType::Euc2d);
    assert_eq!(problem.capacity, 100);

    assert_eq!(problem.demands[1], 19);
}

#[test]
fn mod_test() {
    let problem = Problem::parse(INSTANCE.as_bytes());
    assert!(problem.is_ok());
    let problem = problem.unwrap();

    assert_eq!(String::from_utf8(problem.name.clone()).unwrap(), "A-n32-k5");
    assert_eq!(
        String::from_utf8(problem.comment.clone()).unwrap(),
        "Augerat et al, No of trucks: 5, Optimal value: 784"
    );
    assert_eq!(problem.problem_type, ProblemType::Cvrp);
    assert_eq!(problem.dimension, 32);
    assert_eq!(problem.edge_weight_type, EdgeWeightType::Euc2d);
    assert_eq!(problem.capacity, 100);

    assert_eq!(problem.demands[1], 19);
    assert_eq!(problem.coordinates.len(), 32);
    assert_eq!(problem.demands.len(), 32);
    assert_eq!(problem.coordinates[0], (82, 76));
    assert_eq!(problem.coordinates[31], (98, 5));
    assert_eq!(problem.demands[0], 0);
    assert_eq!(problem.demands[31], 9);
    assert!(problem.is_feasible());
}

#[test]
fn small_problem() {
    let problem = Problem::try_from_vrp(SMALL).unwrap();
    assert_eq!(problem.name, b"tiny");
    assert_eq!(problem.comment, b"two nodes");
    assert_eq!(problem.dimension, 2);
    assert_eq!(problem.capacity, 1);
    assert_eq!(problem.coordinates, vec![(0, 0), (1, 0)]);
    assert_eq!(problem.demands, vec![0, 1]);
}

#[test]
fn lines_may_end_with_a_carriage_return_and_blanks() {
    let text = SMALL.replace('\n', "  \r\n");
    let problem = Problem::try_from_vrp(&text).unwrap();
    assert_eq!(problem.name, b"tiny");
    assert_eq!(problem.coordinates, vec![(0, 0), (1, 0)]);
    assert_eq!(problem.demands, vec![0, 1]);
}

#[test]
fn number_words_may_have_a_plus_sign_and_leading_zeros() {
    let text = SMALL
        .replace("DIMENSION : 2", "DIMENSION : +2")
        .replace("CAPACITY : 1", "CAPACITY : 007")
        .replace(" 2 1 0", " 2 0010 00");
    let problem = Problem::try_from_vrp(&text).unwrap();
    assert_eq!(problem.dimension, 2);
    assert_eq!(problem.capacity, 7);
    assert_eq!(problem.coordinates, vec![(0, 0), (10, 0)]);
}

#[test]
fn type_words_are_read_by_their_beginning() {
    let text = SMALL
        .replace("TYPE : CVRP", "TYPE : CVRPTW")
        .replace("EDGE_WEIGHT_TYPE : EUC_2D", "EDGE_WEIGHT_TYPE : EUC_2D!");
    assert!(Problem::try_from_vrp(&text).is_ok());
    assert_eq!(ProblemType::parse(b"CVRP and more"), Some((ProblemType::Cvrp, 4)));
    assert_eq!(ProblemType::parse(b"cvrp"), None);
    assert_eq!(ProblemType::parse(b"CVR"), None);
    assert_eq!(
        EdgeWeightType::parse(b"EUC_2D"),
        Some((EdgeWeightType::Euc2d, 6))
    );
    assert_eq!(EdgeWeightType::parse(b"EUC_3D"), None);
    assert_eq!(EdgeWeightType::parse(b""), None);
}

#[test]
fn problem_without_nodes() {
    let text = "NAME : none\nCOMMENT : (no node)\nTYPE : CVRP\nDIMENSION : 0\n\
EDGE_WEIGHT_TYPE : EUC_2D\nCAPACITY : 5\nNODE_COORD_SECTION\nDEMAND_SECTION\nwhatever";
    let problem = Problem::try_from_vrp(text).unwrap();
    assert_eq!(problem.dimension, 0);
    assert!(problem.coordinates.is_empty());
    assert!(problem.demands.is_empty());
    assert!(!problem.is_feasible());
}

#[test]
fn comment_may_run_over_lines() {
    let text = SMALL.replace("(two nodes)", "(two\nnodes: (1, 2)");
    let problem = Problem::try_from_vrp(&text).unwrap();
    assert_eq!(problem.comment, b"two\nnodes: (1, 2");
}

#[test]
fn name_line_that_does_not_fit() {
    assert_eq!(stuck(""), at(0, Expected::Name));
    assert_eq!(stuck("NAMES : x\n"), at(4, Expected::Name));
    assert_eq!(stuck("NAME: x\n"), at(4, Expected::Name));
    assert_eq!(stuck("NAME : \n"), at(7, Expected::Name));
    assert_eq!(stuck("NAME : a b\n"), at(9, Expected::Name));
    assert_eq!(stuck("NAME : ab"), at(9, Expected::Name));
    assert_eq!(stuck("NAME : ab  \r"), at(11, Expected::Name));
}

#[test]
fn tab_before_a_line_ending_does_not_fit() {
    assert_eq!(stuck("NAME : ab\t\n"), at(9, Expected::Name));
    assert_eq!(stuck("NAME : ab \t\n"), at(10, Expected::Name));
    let text = SMALL.replace("DEMAND_SECTION\n", "DEMAND_SECTION\t\n");
    assert!(Problem::try_from_vrp(&text).is_err());
    let text = SMALL.replace(" 2 1 0\n", "\t2\t1\t0\n");
    assert!(Problem::try_from_vrp(&text).is_ok());
}

#[test]
fn comment_line_that_does_not_fit() {
    assert_eq!(stuck("NAME : x\nCOMENT : (c)\n"), at(9, Expected::Comment));
    assert_eq!(stuck("NAME : x\nCOMMENT : c\n"), at(19, Expected::Comment));
    assert_eq!(stuck("NAME : x\nCOMMENT : ()\n"), at(20, Expected::Comment));
    assert_eq!(stuck("NAME : x\nCOMMENT : (c\n"), at(20, Expected::Comment));
    assert_eq!(stuck("NAME : x\nCOMMENT : (c) d\n"), at(23, Expected::Comment));
}

#[test]
fn type_line_that_does_not_fit() {
    let head = "NAME : x\nCOMMENT : (c)\n";
    assert_eq!(stuck(&format!("{head}TYPE : TSP\n")), at(30, Expected::ProblemType));
    assert_eq!(stuck(&format!("{head}TYPE : cvrp\n")), at(30, Expected::ProblemType));
    assert_eq!(stuck(&format!("{head}TYP : CVRP\n")), at(23, Expected::ProblemType));
    assert_eq!(stuck(&format!("{head}TYPE : CVRP")), at(34, Expected::ProblemType));
}

#[test]
fn dimension_line_that_does_not_fit() {
    let head = "NAME : x\nCOMMENT : (c)\nTYPE : CVRP\n";
    assert_eq!(stuck(&format!("{head}DIMENSION : x\n")), at(47, Expected::Dimension));
    assert_eq!(stuck(&format!("{head}DIMENSION : -1\n")), at(47, Expected::Dimension));
    assert_eq!(stuck(&format!("{head}DIMENSION : +\n")), at(47, Expected::Dimension));
    assert_eq!(stuck(&format!("{head}DIMENSION : 1+\n")), at(47, Expected::Dimension));
    assert_eq!(stuck(&format!("{head}DIMENSION : ++1\n")), at(47, Expected::Dimension));
    assert_eq!(
        stuck(&format!("{head}DIMENSION : 340282366920938463463374607431768211456\n")),
        at(47, Expected::Dimension)
    );
    assert_eq!(stuck(&format!("{head}DIMENSIO : 3\n")), at(35, Expected::Dimension));
}

#[test]
fn weight_and_capacity_lines_that_do_not_fit() {
    let head = "NAME : x\nCOMMENT : (c)\nTYPE : CVRP\nDIMENSION : 1\n";
    assert_eq!(
        stuck(&format!("{head}EDGE_WEIGHT_TYPE : GEO\n")),
        at(68, Expected::EdgeWeightType)
    );
    assert_eq!(
        stuck(&format!("{head}EDGE_WEIGHT : EUC_2D\n")),
        at(49, Expected::EdgeWeightType)
    );
    let head = format!("{head}EDGE_WEIGHT_TYPE : EUC_2D\n");
    assert_eq!(stuck(&format!("{head}CAPACITY : many\n")), at(86, Expected::Capacity));
    assert_eq!(stuck(&format!("{head}CAPACITY : 10")), at(88, Expected::Capacity));
}

#[test]
fn sections_that_do_not_fit() {
    let head = "NAME : x\nCOMMENT : (c)\nTYPE : CVRP\nDIMENSION : 2\n\
EDGE_WEIGHT_TYPE : EUC_2D\nCAPACITY : 9\n";
    assert_eq!(head.len(), 88);
    assert_eq!(stuck(head), at(88, Expected::CoordinateSection));
    assert_eq!(
        stuck(&format!("{head}NODE_COORD_SECTION x\n")),
        at(107, Expected::CoordinateSection)
    );
    let head = format!("{head}NODE_COORD_SECTION\n");
    assert_eq!(head.len(), 107);
    assert_eq!(stuck(&format!("{head}1 0 0\n")), at(107, Expected::Coordinate));
    assert_eq!(stuck(&format!("{head} x 0 0\n")), at(108, Expected::Coordinate));
    assert_eq!(stuck(&format!("{head} 1 0\n")), at(111, Expected::Coordinate));
    assert_eq!(stuck(&format!("{head} 1 0 -3\n")), at(112, Expected::Coordinate));
    assert_eq!(stuck(&format!("{head} 1 0 3 4\n")), at(114, Expected::Coordinate));
    assert_eq!(
        stuck(&format!("{head} 1 18446744073709551616 0\n")),
        at(110, Expected::Coordinate)
    );
    assert_eq!(
        stuck(&format!("{head} 1 0 0\nDEMAND_SECTION\n")),
        at(114, Expected::Coordinate)
    );
    let head = format!("{head} 1 0 18446744073709551615\n \t2 5  6 \n");
    assert_eq!(head.len(), 143);
    assert_eq!(stuck(&format!("{head} 3 1 1\n")), at(143, Expected::DemandSection));
    let head = format!("{head}DEMAND_SECTION\n");
    assert_eq!(head.len(), 158);
    assert_eq!(stuck(&format!("{head} 1 0\n")), at(158, Expected::Demand));
    assert_eq!(stuck(&format!("{head}1\n")), at(159, Expected::Demand));
    assert_eq!(stuck(&format!("{head}1 x\n")), at(160, Expected::Demand));
    assert_eq!(stuck(&format!("{head}1 0 0\n")), at(162, Expected::Demand));
    assert_eq!(stuck(&format!("{head}1 0\n")), at(162, Expected::Demand));
    assert_eq!(
        stuck(&format!("{head}1 0\n2 340282366920938463463374607431768211456\n")),
        at(164, Expected::Demand)
    );
    let problem = Problem::try_from_vrp(&format!("{head}1 0\n2 4\n3 9 9 9")).unwrap();
    assert_eq!(problem.coordinates, vec![(0, 18446744073709551615), (5, 6)]);
    assert_eq!(problem.demands, vec![0, 4]);
}

#[test]
fn runs_of_a_class() {
    let text = b"  \t12ab) ";
    assert_eq!(scan(text, Class::Blank, 0), 3);
    assert_eq!(scan(text, Class::Blank, 3), 3);
    assert_eq!(scan(text, Class::Digit, 3), 5);
    assert_eq!(scan(text, Class::Graphic, 3), 8);
    assert_eq!(scan(text, Class::Unclosed, 0), 7);
    assert_eq!(scan(text, Class::Unclosed, 8), 9);
    assert_eq!(scan(text, Class::Digit, 9), 9);
    assert!(Class::Graphic.test(b'!') && Class::Graphic.test(b'~'));
    assert!(!Class::Graphic.test(b' ') && !Class::Graphic.test(127));
    assert!(Class::Blank.test(b'\t') && !Class::Blank.test(b'\n'));
    assert!(Class::Space.test(b' ') && !Class::Space.test(b'\t'));
    assert_eq!(scan(text, Class::Space, 0), 2);
    assert!(Class::Digit.test(b'0') && Class::Digit.test(b'9') && !Class::Digit.test(b'a'));
}

#[test]
fn tags_and_line_ends() {
    assert!(match_tag(b"NAME : x", 0, "NAME"));
    assert!(match_tag(b"NAME : x", 4, " : "));
    assert!(!match_tag(b"NAME : x", 1, "NAME"));
    assert!(!match_tag(b"NAM", 0, "NAME"));
    assert!(match_tag(b"abc", 3, ""));
    assert_eq!(match_line_end(b"a\nb", 1), Some(2));
    assert_eq!(match_line_end(b"a\r\nb", 1), Some(3));
    assert_eq!(match_line_end(b"a\rb", 1), None);
    assert_eq!(match_line_end(b"a\r", 1), None);
    assert_eq!(match_line_end(b"a", 1), None);
}

#[test]
fn numbers_up_to_a_limit() {
    assert_eq!(read_number(b"x0123y", 1, 5, 1000), Some(123));
    assert_eq!(read_number(b"255", 0, 3, 255), Some(255));
    assert_eq!(read_number(b"256", 0, 3, 255), None);
    assert_eq!(read_number(b"", 0, 0, 9), Some(0));
    assert_eq!(
        read_number(b"18446744073709551615", 0, 20, u64::MAX),
        Some(u64::MAX)
    );
    assert_eq!(read_number(b"18446744073709551616", 0, 20, u64::MAX), None);
    assert_eq!(read_number(b"99999999999999999999", 0, 20, u64::MAX), None);
    assert_eq!(read_unsigned(b"+42", 0, 3, 100), Some(42));
    assert_eq!(read_unsigned(b"42", 0, 2, 41), None);
    assert_eq!(read_unsigned(b"4 2", 0, 3, 100), None);
    assert_eq!(read_unsigned(b"+", 0, 1, 100), None);
    assert_eq!(read_unsigned(b"", 0, 0, 100), None);
    assert_eq!(read_unsigned(b"-1", 0, 2, 100), None);
}
