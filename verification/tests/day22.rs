use advent23::day22::linked_list::Node;
use advent23::day22::{
    drop_bricks, get_bricks_above_and_below, num_disintegrateable, parse_brick, parse_input, part2, Brick,
    Position,
};

const TEST_INPUT: &str = "1,0,1~1,2,1\n\
                          0,0,2~2,0,2\n\
                          0,2,3~2,2,3\n\
                          0,0,4~0,2,4\n\
                          2,0,5~2,2,5\n\
                          0,1,6~2,1,6\n\
                          1,1,8~1,1,9";

#[test]
fn main_test_part1() {
    let bricks = parse_input(TEST_INPUT).unwrap();
    let landed_bricks = drop_bricks(bricks).unwrap();

    assert_eq!(num_disintegrateable(&landed_bricks), 5);
}

#[test]
fn main_test_part2() {
    let bricks = parse_input(TEST_INPUT).unwrap();
    let landed_bricks = drop_bricks(bricks).unwrap();

    assert_eq!(part2(&landed_bricks), Some(7));
}

#[test]
fn day22_bricks_land_highest_first() {
    let bricks = parse_input(TEST_INPUT).unwrap();
    let landed = drop_bricks(bricks).unwrap();
    let tops: Vec<u32> = landed.iter().map(|b| b.max.z).collect();
    assert_eq!(tops, vec![6, 4, 3, 3, 2, 2, 1]);
    assert_eq!(
        landed[0],
        Brick { min: Position { x: 1, y: 1, z: 5 }, max: Position { x: 1, y: 1, z: 6 } }
    );
    let (above, below) = get_bricks_above_and_below(&landed);
    assert_eq!(below[0], vec![1]);
    assert_eq!(below[1], vec![2, 3]);
    assert_eq!(above[6], vec![4, 5]);
    assert!(above[0].is_empty());
    assert!(below[6].is_empty());
}

#[test]
fn day22_parse_and_move_bricks() {
    assert_eq!(
        parse_brick(b"1,0,1~1,2,1"),
        Some(Brick { min: Position { x: 1, y: 0, z: 1 }, max: Position { x: 1, y: 2, z: 1 } })
    );
    assert_eq!(parse_brick(b"1,0,1"), None);
    assert_eq!(parse_brick(b"1,0~1,2,1"), None);
    assert_eq!(parse_brick(b"1,0,x~1,2,1"), None);
    assert_eq!(parse_brick(b"1,0,4294967296~1,2,1"), None);
    assert!(parse_input("1,0,1~1,2,1\nbad").is_none());
    let mut a = Brick { min: Position { x: 0, y: 0, z: 7 }, max: Position { x: 2, y: 0, z: 9 } };
    let b = Brick { min: Position { x: 2, y: 0, z: 1 }, max: Position { x: 2, y: 5, z: 1 } };
    let c = Brick { min: Position { x: 3, y: 0, z: 1 }, max: Position { x: 3, y: 5, z: 1 } };
    assert!(a.horizontally_collides(&b));
    assert!(!a.horizontally_collides(&c));
    a.set_bottom_z(2);
    assert_eq!((a.min.z, a.max.z), (2, 4));
    let upside_down = Brick { min: Position { x: 0, y: 0, z: 9 }, max: Position { x: 0, y: 0, z: 7 } };
    assert!(drop_bricks(vec![upside_down]).is_none());
}

#[test]
fn day22_linked_list_walks() {
    let list = Node::new(3).push_left(2).push_left(1);
    let mut walk = list.iter();
    assert_eq!(walk.next(), Some(&1));
    assert_eq!(walk.next(), Some(&2));
    assert_eq!(walk.next(), Some(&3));
    assert_eq!(walk.next(), None);
    let mut walk = list.into_iter();
    assert_eq!(walk.next(), Some(1));
    assert_eq!(walk.next(), Some(2));
    assert_eq!(walk.next(), Some(3));
    assert_eq!(walk.next(), None);
    assert_eq!(walk.next(), None);
}
