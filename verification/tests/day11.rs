use advent::day11::{star_one, star_two, Monkey, Operation, Test};

fn test_monkeys() -> Vec<Monkey> {
    vec![
        Monkey::new(0, vec![79, 98], Operation::MulOld(19), Test::new(23, 2, 3)),
        Monkey::new(1, vec![54, 65, 75, 74], Operation::AddOld(6), Test::new(19, 2, 0)),
        Monkey::new(2, vec![79, 60, 97], Operation::MulOldSelf, Test::new(13, 1, 3)),
        Monkey::new(3, vec![74], Operation::AddOld(3), Test::new(17, 0, 1)),
    ]
}

#[test]
fn day11_test_star_one() {
    assert_eq!(star_one(test_monkeys()), 10605)
}

#[test]
fn day11_test_star_two() {
    assert_eq!(star_two(test_monkeys()), 2713310158);
}

#[test]
fn solve_day11() {
    let monkeys = vec![
        Monkey::new(0, vec![84, 66, 62, 69, 88, 91, 91], Operation::MulOld(11), Test::new(2, 4, 7)),
        Monkey::new(1, vec![98, 50, 76, 99], Operation::MulOldSelf, Test::new(7, 3, 6)),
        Monkey::new(2, vec![72, 56, 94], Operation::AddOld(1), Test::new(13, 4, 0)),
        Monkey::new(3, vec![55, 88, 90, 77, 60, 67], Operation::AddOld(2), Test::new(3, 6, 5)),
        Monkey::new(
            4,
            vec![69, 72, 63, 60, 72, 52, 63, 78],
            Operation::MulOld(13),
            Test::new(19, 1, 7),
        ),
        Monkey::new(5, vec![89, 73], Operation::AddOld(5), Test::new(17, 2, 0)),
        Monkey::new(6, vec![78, 68, 98, 88, 66], Operation::AddOld(6), Test::new(11, 2, 5)),
        Monkey::new(7, vec![70], Operation::AddOld(7), Test::new(5, 1, 3)),
    ];

    assert_eq!(star_one(monkeys.clone()), 99840);
    assert_eq!(star_two(monkeys), 20683044837);
}
