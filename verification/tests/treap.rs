use balanced_bst::treap::Treap;
use balanced_bst::BST;

#[test]
fn treap_test_insert() {
    let mut tree: Treap<u64> = Treap::new(77);
    tree.insert(10);
    assert_eq!(tree.print(), "[10()()]");
    assert_eq!(tree.invalid_priority(), false);
    assert_eq!(tree.invalid_key(), false);
}

#[test]
fn treap_test_insert_2() {
    let mut tree: Treap<u64> = Treap::new(77);
    tree.insert(10);
    assert_eq!(tree.print(), "[10()()]");
    tree.insert(50);
    assert_eq!(tree.print(), "[10()([50()()])]");
    assert_eq!(tree.invalid_priority(), false);
    assert_eq!(tree.invalid_key(), false);
}

#[test]
fn test_insert_3() {
    let mut tree: Treap<u64> = Treap::new(77);
    tree.insert(10);
    assert_eq!(tree.print(), "[10()()]");
    tree.insert(50);
    assert_eq!(tree.print(), "[10()([50()()])]");
    tree.insert(5);
    assert_eq!(tree.print(), "[10([5()()])([50()()])]");
    assert_eq!(tree.invalid_priority(), false);
    assert_eq!(tree.invalid_key(), false);
    tree.insert(5);
    assert_eq!(tree.print(), "[10([5()()])([50()()])]");
    assert_eq!(tree.invalid_priority(), false);
    assert_eq!(tree.invalid_key(), false);
    tree.insert(10);
    assert_eq!(tree.print(), "[10([5()()])([50()()])]");
    assert_eq!(tree.invalid_priority(), false);
    assert_eq!(tree.invalid_key(), false);
}

#[test]
fn test_rotate() {
    let mut tree: Treap<u64> = Treap::new(77);
    tree.insert(10);
    assert_eq!(tree.print(), "[10()()]");
    assert_eq!(tree.invalid_priority(), false);
    assert_eq!(tree.invalid_key(), false);
    tree.insert(50);
    assert_eq!(tree.print(), "[10()([50()()])]");
    assert_eq!(tree.invalid_priority(), false);
    assert_eq!(tree.invalid_key(), false);
    tree.insert(5);
    assert_eq!(tree.print(), "[10([5()()])([50()()])]");
    assert_eq!(tree.invalid_priority(), false);
    assert_eq!(tree.invalid_key(), false);
    tree.insert(100);
    assert_eq!(tree.print(), "[10([5()()])([50()([100()()])])]");
    assert_eq!(tree.invalid_priority(), false);
    assert_eq!(tree.invalid_key(), false);
    tree.insert(200);
    assert_eq!(tree.print(), "[10([5()()])([200([50()([100()()])])()])]");
    assert_eq!(tree.invalid_priority(), false);
    assert_eq!(tree.invalid_key(), false);
    tree.insert(400);
    assert_eq!(
        tree.print(),
        "[400([10([5()()])([200([50()([100()()])])()])])()]"
    );
    assert_eq!(tree.invalid_priority(), false);
    assert_eq!(tree.invalid_key(), false);
    tree.insert(300);
    assert_eq!(
        tree.print(),
        "[400([10([5()()])([200([50()([100()()])])([300()()])])])()]"
    );
    assert_eq!(tree.invalid_priority(), false);
    assert_eq!(tree.invalid_key(), false);
    tree.insert(35);
    assert_eq!(
        tree.print(),
        "[400([10([5()()])([35()([200([50()([100()()])])([300()()])])])])()]"
    );
    assert_eq!(tree.invalid_priority(), false);
    assert_eq!(tree.invalid_key(), false);
}

#[test]
fn treap_test_find() {
    let mut tree: Treap<u64> = Treap::new(77);
    assert_eq!(tree.find(0), false);
    tree.insert(10);
    assert_eq!(tree.find(0), false);
    assert_eq!(tree.find(10), true);
    tree.insert(50);
    assert_eq!(tree.find(0), false);
    assert_eq!(tree.find(10), true);
    assert_eq!(tree.find(50), true);
}

#[test]
fn treap_test_delete() {
    let mut tree: Treap<u64> = Treap::new(77);
    assert_eq!(tree.find(0), false);
    tree.insert(10);
    assert_eq!(tree.find(0), false);
    assert_eq!(tree.find(10), true);
    tree.delete(10);
    assert_eq!(tree.find(0), false);
    assert_eq!(tree.find(10), false);
    tree.insert(50);
    assert_eq!(tree.find(0), false);
    assert_eq!(tree.find(10), false);
    assert_eq!(tree.find(50), true);
}

#[test]
fn test_delete_2() {
    let mut tree: Treap<u64> = Treap::new(77);
    tree.insert(10);
    tree.insert(50);
    tree.insert(5);
    tree.insert(100);
    tree.insert(200);
    tree.insert(400);
    tree.insert(300);
    tree.insert(35);
    assert_eq!(
        tree.print(),
        "[400([10([5()()])([35()([200([50()([100()()])])([300()()])])])])()]"
    );
    tree.delete(50);
    assert_eq!(
        tree.print(),
        "[400([10([5()()])([35()([200([100()()])([300()()])])])])()]"
    );
    assert_eq!(tree.invalid_priority(), false);
    assert_eq!(tree.invalid_key(), false);
    tree.delete(35);
    assert_eq!(
        tree.print(),
        "[400([10([5()()])([200([100()()])([300()()])])])()]"
    );
    assert_eq!(tree.invalid_priority(), false);
    assert_eq!(tree.invalid_key(), false);
    tree.delete(400);
    assert_eq!(tree.print(), "[10([5()()])([200([100()()])([300()()])])]");
    assert_eq!(tree.invalid_priority(), false);
    assert_eq!(tree.invalid_key(), false);
    tree.delete(200);
    assert_eq!(tree.print(), "[10([5()()])([300([100()()])()])]");
    assert_eq!(tree.invalid_priority(), false);
    assert_eq!(tree.invalid_key(), false);
    tree.delete(10);
    assert_eq!(tree.print(), "[5()([300([100()()])()])]");
    assert_eq!(tree.invalid_priority(), false);
    assert_eq!(tree.invalid_key(), false);
}

#[test]
fn find_on_an_empty_treap_is_false() {
    let mut tree: Treap<u64> = Treap::new(3);
    assert_eq!(tree.find(7), false);
    tree.delete(7);
    assert_eq!(tree.find(7), false);
}

#[test]
fn a_higher_priority_goes_above() {
    let mut tree: Treap<u64> = Treap::new(0);
    tree.insert_with_priority(10, 1);
    tree.insert_with_priority(50, 2);
    assert_eq!(tree.print(), "[50([10()()])()]");
    tree.insert_with_priority(5, 0);
    assert_eq!(tree.print(), "[50([10([5()()])()])()]");
    assert_eq!(tree.invalid_priority(), false);
    assert_eq!(tree.invalid_key(), false);

    let mut other: Treap<u64> = Treap::new(0);
    other.insert_with_priority(10, 1);
    other.insert_with_priority(50, 2);
    other.insert_with_priority(5, 9);
    assert_eq!(other.print(), "[5()([50([10()()])()])]");
    assert_eq!(other.invalid_priority(), false);
    assert_eq!(other.invalid_key(), false);
}

#[test]
fn an_equal_priority_stays_below() {
    let mut tree: Treap<u64> = Treap::new(0);
    tree.insert_with_priority(10, 4);
    tree.insert_with_priority(50, 4);
    tree.insert_with_priority(5, 4);
    assert_eq!(tree.print(), "[10([5()()])([50()()])]");
    assert_eq!(tree.invalid_priority(), false);
}

#[test]
fn of_two_children_with_one_priority_the_left_is_promoted() {
    let mut tree: Treap<u64> = Treap::new(0);
    tree.insert_with_priority(20, 10);
    tree.insert_with_priority(10, 5);
    tree.insert_with_priority(30, 5);
    assert_eq!(tree.print(), "[20([10()()])([30()()])]");
    tree.delete(20);
    assert_eq!(tree.find(20), false);
    assert_eq!(tree.print(), "[10()([30()()])]");
    assert_eq!(tree.invalid_priority(), false);
    assert_eq!(tree.invalid_key(), false);
}

#[test]
fn delete_sinks_the_node_under_the_child_of_higher_priority() {
    let mut tree: Treap<u64> = Treap::new(0);
    tree.insert_with_priority(50, 90);
    tree.insert_with_priority(30, 80);
    tree.insert_with_priority(70, 70);
    tree.insert_with_priority(20, 60);
    tree.insert_with_priority(40, 50);
    tree.insert_with_priority(60, 40);
    tree.insert_with_priority(80, 30);
    tree.insert_with_priority(45, 95);
    assert_eq!(tree.print(), "[45([30([20()()])([40()()])])([50()([70([60()()])([80()()])])])]");
    tree.delete(45);
    assert_eq!(tree.print(), "[50([30([20()()])([40()()])])([70([60()()])([80()()])])]");
    assert_eq!(tree.invalid_priority(), false);
    assert_eq!(tree.invalid_key(), false);
    tree.delete(50);
    assert_eq!(tree.print(), "[30([20()()])([70([40()([60()()])])([80()()])])]");
    assert_eq!(tree.invalid_priority(), false);
    assert_eq!(tree.invalid_key(), false);
    tree.delete(20);
    assert_eq!(tree.print(), "[30()([70([40()([60()()])])([80()()])])]");
    assert_eq!(tree.invalid_priority(), false);
    assert_eq!(tree.invalid_key(), false);
    tree.delete(99);
    assert_eq!(tree.print(), "[30()([70([40()([60()()])])([80()()])])]");
    assert_eq!(tree.invalid_priority(), false);
    assert_eq!(tree.invalid_key(), false);
}

#[test]
fn inserting_a_present_key_changes_nothing_whatever_the_priority() {
    let mut tree: Treap<u64> = Treap::new(0);
    for (key, priority) in [(50, 90), (30, 80), (70, 70), (20, 60), (40, 50)] {
        tree.insert_with_priority(key, priority);
    }
    let before = tree.print();
    for key in [50, 30, 70, 20, 40] {
        tree.insert_with_priority(key, 1000);
        assert_eq!(tree.print(), before);
        tree.insert(key);
        assert_eq!(tree.print(), before);
    }
}

#[test]
fn find_leaves_the_treap_as_it_is() {
    let mut tree: Treap<u64> = Treap::new(9);
    for key in [50, 30, 70, 20, 40, 60, 80] {
        tree.insert(key);
    }
    let before = tree.print();
    for key in [20, 80, 50, 55, 0] {
        tree.find(key);
        assert_eq!(tree.print(), before);
    }
}

#[test]
fn after_a_treap_delete_the_key_is_gone_and_the_others_stay() {
    let mut tree: Treap<u64> = Treap::new(77);
    for key in [10, 50, 5, 200, 400, 100] {
        tree.insert(key);
    }
    tree.delete(200);
    assert_eq!(tree.find(200), false);
    for key in [10, 50, 5, 400, 100] {
        assert_eq!(tree.find(key), true);
    }
    assert_eq!(tree.invalid_key(), false);
    assert_eq!(tree.invalid_priority(), false);
}

#[test]
fn the_same_seed_and_steps_give_the_same_shape() {
    let mut one: Treap<u64> = Treap::new(31);
    let mut two: Treap<u64> = Treap::new(31);
    for key in [8, 3, 12, 1, 5, 10, 14, 4, 6, 13, 2, 9] {
        one.insert(key);
        two.insert(key);
        assert_eq!(one.print(), two.print());
    }
    for key in [5, 12, 7, 1] {
        one.delete(key);
        two.delete(key);
        assert_eq!(one.print(), two.print());
    }
}

#[test]
fn the_seed_fixes_the_shape() {
    let mut tree: Treap<u64> = Treap::new(0);
    for step in 1..21u64 {
        tree.insert((step * 37) % 101);
    }
    assert_eq!(
        tree.print(),
        "[30([3()([20([13([10()()])()])([23()()])])])([74([50([40([33()([37()()])])([47()()])])([60([57()()])([67()()])])])([84([77()()])([94([87()()])([97()()])])])])]"
    );
    for key in [37, 74, 10, 47] {
        tree.delete(key);
    }
    assert_eq!(
        tree.print(),
        "[30([3()([20([13()()])([23()()])])])([84([50([40([33()()])()])([60([57()()])([67()([77()()])])])])([94([87()()])([97()()])])])]"
    );
    assert_eq!(tree.invalid_priority(), false);
    assert_eq!(tree.invalid_key(), false);
    let mut tree: Treap<u64> = Treap::new(1);
    for step in 1..21u64 {
        tree.insert((step * 37) % 101);
    }
    assert_eq!(
        tree.print(),
        "[67([57([50([13([3()([10()()])])([20()([33([30([23()()])()])([47([40([37()()])()])()])])])])()])([60()()])])([87([84([77([74()()])()])()])([97([94()()])()])])]"
    );
    for key in [37, 74, 10, 47] {
        tree.delete(key);
    }
    assert_eq!(
        tree.print(),
        "[67([57([50([13([3()()])([20()([33([30([23()()])()])([40()()])])])])()])([60()()])])([87([84([77()()])()])([97([94()()])()])])]"
    );
    assert_eq!(tree.invalid_priority(), false);
    assert_eq!(tree.invalid_key(), false);
    let mut tree: Treap<u64> = Treap::new(200);
    for step in 1..21u64 {
        tree.insert((step * 37) % 101);
    }
    assert_eq!(
        tree.print(),
        "[13([3()([10()()])])([23([20()()])([30()([67([57([50([47([33()([40([37()()])()])])()])()])([60()()])])([77([74()()])([97([84()([94([87()()])()])])()])])])])])]"
    );
    for key in [37, 74, 10, 47] {
        tree.delete(key);
    }
    assert_eq!(
        tree.print(),
        "[13([3()()])([23([20()()])([30()([67([57([50([33()([40()()])])()])([60()()])])([77()([97([84()([94([87()()])()])])()])])])])])]"
    );
    assert_eq!(tree.invalid_priority(), false);
    assert_eq!(tree.invalid_key(), false);
}

// Step kinds: 0 inserts with the priority given, 1 searches, 2 deletes; the
// last entry is 2 where a search must succeed and 1 where it must fail.
#[test]
fn a_long_treap_walk_ends_in_the_expected_shape() {
    let steps: [(u8, u64, u64, u8); 300] = [
        (1, 35, 39, 1), (0, 40, 27, 0), (0, 49, 38, 0), (1, 59, 8, 1), (1, 59, 29, 1),
        (0, 16, 22, 0), (2, 45, 21, 0), (1, 25, 37, 1), (2, 30, 7, 0), (0, 47, 15, 0),
        (0, 18, 7, 0), (2, 36, 33, 0), (2, 39, 22, 0), (0, 32, 14, 0), (0, 49, 38, 0),
        (0, 13, 16, 0), (0, 10, 25, 0), (0, 6, 37, 0), (2, 28, 18, 0), (2, 46, 31, 0),
        (0, 48, 37, 0), (1, 2, 32, 1), (2, 4, 39, 0), (0, 56, 7, 0), (0, 39, 10, 0),
        (1, 43, 36, 1), (1, 14, 5, 1), (0, 0, 3, 0), (0, 6, 8, 0), (0, 21, 37, 0),
        (2, 28, 36, 0), (0, 52, 8, 0), (2, 53, 23, 0), (1, 25, 27, 1), (0, 41, 33, 0),
        (0, 24, 18, 0), (2, 41, 23, 0), (0, 0, 14, 0), (0, 45, 5, 0), (2, 26, 8, 0),
        (2, 23, 36, 0), (2, 44, 38, 0), (0, 43, 18, 0), (1, 8, 33, 1), (0, 25, 35, 0),
        (0, 40, 37, 0), (0, 32, 11, 0), (0, 5, 13, 0), (0, 54, 21, 0), (1, 5, 15, 2),
        (1, 16, 36, 2), (0, 50, 15, 0), (0, 9, 32, 0), (0, 44, 24, 0), (2, 12, 2, 0),
        (0, 1, 31, 0), (0, 16, 38, 0), (0, 0, 33, 0), (2, 31, 4, 0), (2, 47, 23, 0),
        (0, 49, 34, 0), (1, 19, 30, 1), (0, 0, 19, 0), (2, 13, 34, 0), (0, 44, 13, 0),
        (0, 2, 34, 0), (0, 26, 39, 0), (1, 10, 3, 2), (0, 3, 2, 0), (2, 37, 23, 0),
        (0, 14, 13, 0), (1, 12, 31, 1), (1, 46, 38, 1), (1, 27, 17, 1), (0, 42, 22, 0),
        (1, 4, 11, 1), (1, 59, 37, 1), (0, 16, 5, 0), (0, 2, 1, 0), (2, 57, 11, 0),
        (1, 42, 9, 2), (0, 30, 30, 0), (0, 25, 38, 0), (2, 9, 34, 0), (2, 47, 19, 0),
        (0, 32, 29, 0), (0, 2, 11, 0), (0, 2, 8, 0), (2, 7, 11, 0), (0, 31, 34, 0),
        (1, 11, 9, 1), (2, 18, 15, 0), (1, 5, 4, 2), (0, 27, 3, 0), (1, 0, 30, 2),
        (2, 22, 37, 0), (1, 59, 30, 1), (2, 43, 22, 0), (0, 52, 22, 0), (0, 15, 35, 0),
        (2, 14, 5, 0), (2, 59, 10, 0), (1, 23, 13, 1), (1, 0, 4, 2), (0, 29, 15, 0),
        (2, 43, 29, 0), (2, 55, 30, 0), (0, 33, 24, 0), (1, 55, 24, 1), (0, 12, 7, 0),
        (1, 10, 29, 2), (2, 30, 9, 0), (2, 51, 1, 0), (2, 26, 7, 0), (2, 10, 34, 0),
        (0, 30, 36, 0), (0, 41, 21, 0), (0, 12, 27, 0), (2, 43, 5, 0), (0, 2, 29, 0),
        (0, 14, 22, 0), (2, 28, 15, 0), (2, 54, 1, 0), (0, 14, 1, 0), (2, 22, 34, 0),
        (1, 20, 21, 1), (1, 1, 3, 2), (0, 15, 30, 0), (0, 50, 33, 0), (0, 32, 6, 0),
        (0, 5, 6, 0), (1, 57, 12, 1), (2, 12, 8, 0), (1, 28, 9, 1), (0, 35, 32, 0),
        (1, 8, 29, 1), (0, 37, 27, 0), (2, 55, 16, 0), (1, 32, 24, 2), (0, 43, 3, 0),
        (0, 17, 23, 0), (2, 28, 17, 0), (2, 1, 11, 0), (0, 9, 3, 0), (2, 44, 38, 0),
        (2, 22, 33, 0), (2, 31, 1, 0), (0, 28, 21, 0), (2, 0, 35, 0), (2, 6, 6, 0),
        (0, 30, 21, 0), (2, 23, 28, 0), (0, 22, 36, 0), (0, 19, 25, 0), (1, 36, 17, 1),
        (0, 26, 8, 0), (2, 6, 30, 0), (1, 53, 23, 1), (1, 56, 34, 2), (2, 21, 36, 0),
        (0, 26, 7, 0), (0, 57, 27, 0), (2, 39, 33, 0), (0, 15, 26, 0), (0, 33, 19, 0),
        (1, 16, 29, 2), (0, 8, 6, 0), (0, 10, 26, 0), (0, 41, 19, 0), (0, 49, 32, 0),
        (0, 42, 29, 0), (2, 12, 10, 0), (1, 29, 10, 2), (1, 26, 15, 2), (0, 55, 14, 0),
        (0, 24, 28, 0), (0, 53, 15, 0), (2, 53, 19, 0), (0, 41, 5, 0), (1, 38, 30, 1),
        (0, 21, 33, 0), (1, 44, 24, 1), (1, 30, 29, 2), (0, 37, 18, 0), (0, 21, 17, 0),
        (0, 55, 2, 0), (1, 44, 9, 1), (2, 16, 39, 0), (1, 52, 26, 2), (0, 44, 28, 0),
        (1, 12, 26, 1), (0, 17, 18, 0), (0, 6, 36, 0), (1, 38, 7, 1), (0, 4, 30, 0),
        (0, 6, 12, 0), (2, 19, 30, 0), (0, 27, 24, 0), (2, 42, 39, 0), (1, 34, 9, 1),
        (2, 33, 26, 0), (0, 1, 29, 0), (1, 50, 21, 2), (2, 54, 7, 0), (0, 39, 33, 0),
        (0, 13, 6, 0), (2, 54, 34, 0), (1, 4, 13, 2), (1, 10, 20, 2), (1, 49, 18, 2),
        (0, 2, 8, 0), (1, 13, 27, 2), (0, 35, 36, 0), (0, 54, 6, 0), (1, 46, 4, 1),
        (2, 4, 29, 0), (1, 8, 2, 2), (0, 48, 21, 0), (2, 3, 21, 0), (0, 50, 17, 0),
        (0, 46, 7, 0), (0, 13, 27, 0), (0, 47, 39, 0), (0, 10, 25, 0), (1, 26, 35, 2),
        (0, 37, 31, 0), (2, 11, 13, 0), (2, 29, 26, 0), (0, 41, 32, 0), (0, 15, 38, 0),
        (2, 35, 15, 0), (0, 19, 24, 0), (0, 44, 38, 0), (0, 5, 31, 0), (1, 50, 26, 2),
        (2, 59, 28, 0), (2, 56, 36, 0), (1, 6, 18, 2), (0, 52, 38, 0), (1, 10, 16, 2),
        (1, 52, 28, 2), (0, 4, 31, 0), (0, 53, 36, 0), (0, 37, 23, 0), (0, 6, 39, 0),
        (1, 4, 17, 2), (0, 9, 5, 0), (1, 15, 33, 2), (2, 9, 11, 0), (0, 50, 26, 0),
        (1, 11, 1, 1), (1, 0, 20, 1), (0, 49, 6, 0), (0, 39, 23, 0), (2, 5, 5, 0),
        (0, 13, 0, 0), (2, 36, 6, 0), (1, 7, 24, 1), (0, 1, 7, 0), (2, 32, 22, 0),
        (0, 18, 24, 0), (1, 59, 14, 1), (0, 51, 19, 0), (1, 17, 8, 2), (0, 33, 39, 0),
        (2, 40, 27, 0), (1, 15, 21, 2), (0, 20, 28, 0), (0, 54, 34, 0), (0, 5, 25, 0),
        (0, 24, 28, 0), (0, 30, 12, 0), (2, 43, 14, 0), (1, 34, 36, 1), (1, 36, 8, 1),
        (0, 51, 31, 0), (0, 24, 31, 0), (0, 6, 9, 0), (0, 19, 38, 0), (0, 25, 25, 0),
        (1, 59, 14, 1), (0, 10, 26, 0), (0, 13, 36, 0), (2, 53, 9, 0), (0, 21, 37, 0),
        (2, 44, 2, 0), (0, 26, 38, 0), (0, 53, 17, 0), (0, 24, 20, 0), (2, 36, 23, 0),
        (0, 28, 6, 0), (1, 1, 16, 2), (0, 28, 9, 0), (2, 28, 29, 0), (0, 59, 23, 0),
        (0, 23, 20, 0), (1, 0, 18, 1), (0, 12, 7, 0), (2, 33, 5, 0), (2, 2, 24, 0),
    ];
    let mut tree: Treap<u64> = Treap::new(0);
    let mut filled = false;
    for (kind, key, priority, outcome) in steps {
        match kind {
            0 => {
                tree.insert_with_priority(key, priority);
                filled = true;
            }
            1 => assert_eq!(tree.find(key), outcome == 2),
            _ => tree.delete(key),
        }
        if filled {
            assert_eq!(tree.invalid_key(), false);
            assert_eq!(tree.invalid_priority(), false);
        }
    }
    assert_eq!(
        tree.print(),
        "[47([30([22([6([4([1()()])([5()()])])([15([10([8()()])([14([12()([13()()])])()])])([21([20([19([18([17()()])()])()])()])()])])])([25([23()([24()()])])([26()([27()()])])])])([39([37()()])([41()([46([45()()])()])])])])([49([48()()])([57([51([50()()])([53([52()()])([55([54()()])()])])])([59()()])])])]"
    );
}
