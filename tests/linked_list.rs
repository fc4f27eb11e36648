use basic_tree::linked_list::LinkedList;

#[test]
fn push_i32() {
    let mut ll: LinkedList<i32> = LinkedList::new();

    ll.push(i32::MAX);

    assert_eq!(i32::MAX, *ll.value_of(ll.head().unwrap()));

    let mut ll: LinkedList<i32> = LinkedList::new();

    ll.push(i32::MIN);

    assert_eq!(i32::MIN, *ll.value_of(ll.head().unwrap()));
}

#[test]
fn pop_i32() {
    let expect = i32::MAX;
    let mut ll: LinkedList<i32> = LinkedList::new();
    ll.push(expect);

    let actual = ll.pop();

    assert_eq!(expect, actual.unwrap());

    let expect = i32::MIN;
    let mut ll: LinkedList<i32> = LinkedList::new();
    ll.push(expect);

    let actual = ll.pop();

    assert_eq!(expect, actual.unwrap());
}

#[test]
fn push_string() {
    let expect = "Hello, World!!";
    let mut ll: LinkedList<String> = LinkedList::new();

    ll.push(String::from(expect));

    assert_eq!(expect, *ll.value_of(ll.head().unwrap()));
}

#[test]
fn pop_string() {
    let expect = "Hello, World!!";
    let mut ll: LinkedList<String> = LinkedList::new();
    ll.push(String::from(expect));

    let actual = ll.pop();

    assert_eq!(expect, actual.unwrap())
}

#[test]
fn pop_when_empty() {
    let mut ll: LinkedList<i32> = LinkedList::new();

    let actual = ll.pop();

    assert_eq!(None, actual);

    assert_eq!(None, ll.head());
    assert_eq!(None, ll.tail());
}

#[test]
fn push_when_empty_head_and_tail_points_well() {
    let mut ll: LinkedList<i32> = LinkedList::new();

    ll.push(1);

    assert_eq!(ll.head(), ll.tail());
}

#[test]
fn push_when_list_pushed_twice_head_and_tail_points_well() {
    let first_pushed_value = 1;
    let later_pushed_value = 2;

    let mut ll: LinkedList<i32> = LinkedList::new();

    ll.push(first_pushed_value);
    ll.push(later_pushed_value);

    assert_ne!(ll.head(), ll.tail());
    assert_eq!(ll.tail(), ll.next_of(ll.head().unwrap()));

    assert_eq!(later_pushed_value, *ll.value_of(ll.head().unwrap()));
    assert_eq!(first_pushed_value, *ll.value_of(ll.tail().unwrap()));
}

#[test]
fn push_when_list_pushed_three_times_head_and_tail_points_well() {
    let first_pushed_value = 1;
    let second_pushed_value = 2;
    let third_pushed_value = 3;

    let mut ll: LinkedList<i32> = LinkedList::new();

    ll.push(first_pushed_value);
    ll.push(second_pushed_value);
    ll.push(third_pushed_value);

    assert_ne!(ll.head(), ll.tail());
    let second = ll.next_of(ll.head().unwrap()).unwrap();
    assert_eq!(ll.tail(), ll.next_of(second));

    assert_eq!(third_pushed_value, *ll.value_of(ll.head().unwrap()));
    assert_eq!(second_pushed_value, *ll.value_of(second));
    assert_eq!(first_pushed_value, *ll.value_of(ll.tail().unwrap()));
}

#[test]
fn pop_twice_outputs_order() {
    let mut ll: LinkedList<i32> = LinkedList::new();
    ll.push(1);
    ll.push(2);

    assert_eq!(2, ll.pop().unwrap());
    assert_eq!(1, ll.pop().unwrap());
}

#[test]
fn nodes_remains_after_node_at() {
    let mut ll: LinkedList<i32> = LinkedList::new();
    ll.push(1); // index 0 : 1
    ll.push(2); // index 0 : 2, 1 : 1
    ll.push(3); // index 0 : 3, 1 : 2, 2 : 1
    ll.push(4); // index 0 : 4, 1 : 3, 2 : 2, 3 : 1

    let index_3_node = ll.node_at(3);

    assert_eq!(1, *index_3_node.unwrap());
    assert_eq!(4, ll.pop().unwrap());
    assert_eq!(3, ll.pop().unwrap());
    assert_eq!(2, ll.pop().unwrap());
    assert_eq!(1, ll.pop().unwrap());
}

#[test]
fn push_at_when_two_nodes_exists() {
    let mut ll: LinkedList<i32> = LinkedList::new();
    ll.push(1);
    ll.push(3);

    ll.push_at(1, 2);

    assert_eq!(3, ll.pop().unwrap());
    assert_eq!(2, ll.pop().unwrap());
    assert_eq!(1, ll.pop().unwrap());
}

#[test]
fn node_at_past_the_tail_gives_the_tail() {
    let mut ll: LinkedList<i32> = LinkedList::new();
    assert_eq!(None, ll.node_at(0));
    ll.push(1);
    ll.push(2);

    assert_eq!(Some(&2), ll.node_at(0));
    assert_eq!(Some(&1), ll.node_at(1));
    assert_eq!(Some(&1), ll.node_at(7));
}

#[test]
fn push_at_past_the_tail_goes_before_the_tail() {
    let mut ll: LinkedList<i32> = LinkedList::new();
    ll.push(1);
    ll.push(3);

    ll.push_at(9, 2);
    ll.push_at(0, 4);

    assert_eq!(4, ll.pop().unwrap());
    assert_eq!(3, ll.pop().unwrap());
    assert_eq!(2, ll.pop().unwrap());
    assert_eq!(1, ll.pop().unwrap());
    assert_eq!(None, ll.pop());
    assert_eq!(None, ll.head());
    assert_eq!(None, ll.tail());
}
