use navi::world::map::PatriciaTree;

fn chars(s: &str) -> Vec<char> {
    s.chars().collect()
}

fn nodes(tree: &PatriciaTree<i32>) -> Vec<(String, Option<i32>)> {
    tree.to_vec_preorder().into_iter().map(|(p, v)| (p.into_iter().collect::<String>(), v)).collect()
}

#[test]
fn map_test() {
    let mut tree = PatriciaTree::<i32>::new();

    tree.add(&chars("aiueo"), 1);
    assert_eq!(tree.get(&chars("aiueo")), Some(1));
    assert_eq!(tree.get(&chars("aiue")), None);
    assert_eq!(tree.get(&chars("aiueoka")), None);
    assert_eq!(nodes(&tree), vec![("aiueo".to_string(), Some(1))]);

    tree.add(&chars("aiuka"), 2);
    assert_eq!(tree.get(&chars("aiueo")), Some(1));
    assert_eq!(tree.get(&chars("aiuka")), Some(2));
    assert_eq!(
        nodes(&tree),
        vec![("aiu".to_string(), None), ("eo".to_string(), Some(1)), ("ka".to_string(), Some(2))]
    );

    tree.add(&chars("aiuk"), 3);
    assert_eq!(
        nodes(&tree),
        vec![
            ("aiu".to_string(), None),
            ("eo".to_string(), Some(1)),
            ("k".to_string(), Some(3)),
            ("a".to_string(), Some(2))
        ]
    );

    tree.add(&chars("aiueo"), 4);
    assert_eq!(tree.get(&chars("aiueo")), Some(4));
    assert_eq!(
        nodes(&tree),
        vec![
            ("aiu".to_string(), None),
            ("eo".to_string(), Some(4)),
            ("k".to_string(), Some(3)),
            ("a".to_string(), Some(2))
        ]
    );

    tree.add(&chars("mentaiko"), 8);
    assert_eq!(
        nodes(&tree),
        vec![
            ("aiu".to_string(), None),
            ("eo".to_string(), Some(4)),
            ("k".to_string(), Some(3)),
            ("a".to_string(), Some(2)),
            ("mentaiko".to_string(), Some(8)),
        ]
    );

    tree.add(&chars("hoge"), 5);
    assert_eq!(
        nodes(&tree),
        vec![
            ("aiu".to_string(), None),
            ("eo".to_string(), Some(4)),
            ("k".to_string(), Some(3)),
            ("a".to_string(), Some(2)),
            ("hoge".to_string(), Some(5)),
            ("mentaiko".to_string(), Some(8)),
        ]
    );

    tree.delete(&chars("mentaiko"));
    assert_eq!(
        nodes(&tree),
        vec![
            ("aiu".to_string(), None),
            ("eo".to_string(), Some(4)),
            ("k".to_string(), Some(3)),
            ("a".to_string(), Some(2)),
            ("hoge".to_string(), Some(5)),
        ]
    );

    tree.delete(&chars("aiuk"));
    assert_eq!(
        nodes(&tree),
        vec![
            ("aiu".to_string(), None),
            ("eo".to_string(), Some(4)),
            ("ka".to_string(), Some(2)),
            ("hoge".to_string(), Some(5)),
        ]
    );

    tree.delete(&chars("aiueo"));
    assert_eq!(nodes(&tree), vec![("aiuka".to_string(), Some(2)), ("hoge".to_string(), Some(5))]);

    tree.delete(&chars("hoge"));
    tree.delete(&chars("aiuka"));
    assert_eq!(nodes(&tree), vec![]);
}

#[test]
fn delete_keeps_other_keys() {
    let mut tree = PatriciaTree::<i32>::new();
    tree.add(&chars("a"), 1);
    tree.add(&chars("ab"), 2);
    tree.add(&chars("abc"), 3);
    tree.add(&chars("abd"), 4);

    tree.delete(&chars("ab"));
    assert_eq!(tree.get(&chars("ab")), None);
    assert_eq!(tree.get(&chars("a")), Some(1));
    assert_eq!(tree.get(&chars("abc")), Some(3));
    assert_eq!(tree.get(&chars("abd")), Some(4));

    tree.delete(&chars("a"));
    assert_eq!(tree.get(&chars("a")), None);
    assert_eq!(tree.get(&chars("abc")), Some(3));
    assert_eq!(tree.get(&chars("abd")), Some(4));

    tree.delete(&chars("zzz"));
    tree.delete(&chars("abx"));
    assert_eq!(tree.get(&chars("abc")), Some(3));
    assert_eq!(tree.get(&chars("abd")), Some(4));

    tree.delete(&chars("abc"));
    assert_eq!(tree.get(&chars("abc")), None);
    assert_eq!(tree.get(&chars("abd")), Some(4));
    assert_eq!(nodes(&tree), vec![("abd".to_string(), Some(4))]);
}
