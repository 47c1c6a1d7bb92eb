use c4_engine::c4::{Board, Player};
use c4_engine::tree::{InnerNode, Leaf, Node};

#[test]
fn leaf_on_win() {
    let b = Board::from_int_array(vec![1, 1, 1, 0, 0], 5, 1);
    let mut root = InnerNode::new(b, Player::P1);

    root.find_children();
    assert_eq!(root.children.len(), 2);

    let branch1 = &root.children[0];
    let branch2 = &root.children[1];

    assert_eq!(branch1.input, 3);
    assert_eq!(branch2.input, 4);

    match branch1.node {
        Node::Leaf(ref l) => assert_eq!(l.winner, Player::P1),
        Node::InnerNode(ref _i) => panic!(),
    }

    match branch2.node {
        Node::Leaf(ref _l) => panic!(),
        Node::InnerNode(ref i) => {
            assert_eq!(i.turn, Player::P2);
            assert_eq!(i.board.turn_number, root.board.turn_number + 1);
        }
    }
}

#[test]
fn leaf_on_full() {
    let b = Board::from_int_array(vec![1, 1, 1, -1, 0], 5, 1);
    let mut root = InnerNode::new(b, Player::P1);

    root.find_children();

    assert_eq!(root.children.len(), 1);

    let branch = &root.children[0];
    assert_eq!(branch.input, 4);

    match branch.node {
        Node::Leaf(ref l) => assert_eq!(l.winner, Player::Empty),
        Node::InnerNode(ref _i) => panic!(),
    }
}

#[test]
fn win_on_last_placement() {
    let b = Board::from_int_array(vec![1, 1, 1, 0], 4, 1);

    let mut root = InnerNode::new(b, Player::P1);

    root.find_children();

    assert_eq!(root.children.len(), 1);

    let branch = &root.children[0];
    assert_eq!(branch.input, 3);

    match branch.node {
        Node::Leaf(ref l) => assert_eq!(l.winner, Player::P1),
        Node::InnerNode(ref _i) => panic!(),
    }

    let bb = Board::from_int_array(vec![-1, -1, 0, 1, 1, 1, 0], 7, 1);
    let mut root2 = InnerNode::new(bb, Player::P2);
    root2.find_children();
    assert_eq!(root2.children.len(), 2);
    assert_eq!(root2.children[1].input, 6);
    match &mut (root2.children[1]).node {
        Node::Leaf(ref _l) => panic!(),
        Node::InnerNode(ref mut i) => {
            i.find_children();
            assert_eq!(i.children.len(), 1);
            assert_eq!(i.children[0].input, 2);
            match &(i.children[0]).node {
                Node::Leaf(ref l) => assert_eq!(l.winner, Player::P1),
                Node::InnerNode(ref _i) => panic!(),
            }
        }
    }
}

#[test]
fn new_node_has_no_children() {
    let b = Board::from_int_array(vec![0; 6], 3, 2);
    let node = InnerNode::new(b, Player::P2);
    assert_eq!(node.children.len(), 0);
    assert_eq!(node.turn, Player::P2);
    assert_eq!(node.board.w, 3);
    assert_eq!(node.board.h, 2);
}

#[test]
fn branches_come_in_column_order_and_skip_full_columns() {
    let b = Board::from_int_array(vec![1, 0, -1, 0, 0, 1, 0, -1, 0, 0], 5, 2);
    let mut root = InnerNode::new(b, Player::P2);
    root.find_children();
    let columns: Vec<u32> = root.children.iter().map(|branch| branch.input).collect();
    assert_eq!(columns, vec![1, 3, 4]);
    for branch in root.children.iter() {
        match branch.node {
            Node::Leaf(ref _l) => panic!(),
            Node::InnerNode(ref i) => {
                assert_eq!(i.turn, Player::P1);
                assert_eq!(i.children.len(), 0);
                assert_eq!(i.board.turn_number, 5);
                assert_eq!(i.board.get(branch.input, 0), Player::P2);
            }
        }
    }
    assert_eq!(root.board.turn_number, 4);
}

#[test]
fn expanding_twice_adds_nothing() {
    let b = Board::from_int_array(vec![1, 1, 1, 0, 0], 5, 1);
    let mut root = InnerNode::new(b, Player::P1);
    root.find_children();
    let first: Vec<u32> = root.children.iter().map(|branch| branch.input).collect();
    root.find_children();
    let second: Vec<u32> = root.children.iter().map(|branch| branch.input).collect();
    assert_eq!(first, vec![3, 4]);
    assert_eq!(second, first);
}

#[test]
fn expanding_a_full_board_gives_no_branch() {
    let b = Board::from_int_array(vec![1, -1, 1, -1], 4, 1);
    let mut root = InnerNode::new(b, Player::P1);
    root.find_children();
    assert_eq!(root.children.len(), 0);
    root.find_children();
    assert_eq!(root.children.len(), 0);
}

#[test]
fn win_goes_before_draw_on_the_last_cell() {
    let b = Board::from_int_array(vec![-1, -1, -1, 0], 4, 1);
    let mut root = InnerNode::new(b, Player::P2);
    root.find_children();
    assert_eq!(root.children.len(), 1);
    match root.children[0].node {
        Node::Leaf(ref l) => assert_eq!(l.winner, Player::P2),
        Node::InnerNode(ref _i) => panic!(),
    }
}

#[test]
fn leaf_clone_keeps_the_winner() {
    let leaf = Leaf { winner: Player::P2 };
    assert_eq!(leaf.clone().winner, Player::P2);
}
