use tf_format::{Component, TopologicalSort};

#[test]
fn topo_sort_test() {
    {
        let tree: TopologicalSort = TopologicalSort::new();
        assert!(tree.sort().is_empty());
    }

    {
        let mut tree = TopologicalSort::new();
        tree.insert_edge(1, 1);
        assert_eq!(
            tree.sort(),
            vec![Component {
                start: 1,
                seq: vec![]
            }]
        );
    }

    {
        let mut tree = TopologicalSort::new();
        tree.insert_edge(1, 2);
        tree.insert_edge(1, 3);
        tree.insert_edge(2, 3);
        assert_eq!(
            tree.sort(),
            vec![Component {
                start: 1,
                seq: vec![(1, 2), (1, 3)]
            }]
        );
    }

    {
        let mut tree = TopologicalSort::new();
        tree.insert_edge(1, 2);
        tree.insert_edge(1, 3);
        tree.insert_edge(2, 3);

        tree.insert_edge(4, 5);
        tree.insert_edge(6, 5);

        tree.insert_edge(7, 7);

        assert_eq!(
            tree.sort(),
            vec![
                Component {
                    start: 1,
                    seq: vec![(1, 2), (1, 3)]
                },
                Component {
                    start: 4,
                    seq: vec![(4, 5), (5, 6)]
                },
                Component {
                    start: 7,
                    seq: vec![]
                },
            ]
        );
    }
}

#[test]
fn walk_is_breadth_first_and_takes_repeated_edges() {
    let mut tree = TopologicalSort::new();
    tree.insert_edge(10, 20);
    tree.insert_edge(20, 30);
    tree.insert_edge(10, 40);
    tree.insert_edge(20, 10);
    tree.insert_edge(30, 50);
    tree.insert_edge(40, 50);
    assert_eq!(
        tree.sort(),
        vec![Component {
            start: 10,
            seq: vec![(10, 20), (10, 40), (20, 30), (40, 50)]
        }]
    );
}
