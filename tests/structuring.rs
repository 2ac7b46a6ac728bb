use move_structuring::cfg::{BasicBlock, StructureError, Terminator, NO_EXIT, SYNTHETIC_OFFSET};
use move_structuring::graph::Graph;
use move_structuring::loops::{build_graph, exit_by_largest_offset, loop_reconstruction};
use move_structuring::scc::TarjanScc;
use move_structuring::topo::{topo_sort, topo_sort_stable_usize};

fn blocks(terms: Vec<Terminator>) -> Vec<BasicBlock> {
    terms
        .into_iter()
        .enumerate()
        .map(|(i, t)| BasicBlock::new(i, i * 10, t))
        .collect()
}

fn reaches(g: &Graph, from: usize, to: usize) -> bool {
    let mut seen = vec![false; g.nodes.len()];
    let mut stack = vec![from];
    seen[from] = true;
    while let Some(u) = stack.pop() {
        if u == to {
            return true;
        }
        for &v in g.edges(u) {
            if !seen[v] {
                seen[v] = true;
                stack.push(v);
            }
        }
    }
    false
}

#[test]
fn graph_edges_are_a_set() {
    let mut g = Graph::new(4);
    g.add_edge(0, 1);
    g.add_edge(0, 1);
    g.ensure_node(3);
    assert_eq!(g.edges(0), &vec![1]);
    assert!(g.edges(2).is_empty());
    assert_eq!(g.nodes(), vec![0, 1, 3]);
    assert!(g.contains_node(3));
    assert!(!g.contains_node(2));
}

#[test]
fn scc_partition_is_mutual_reachability() {
    let mut g = Graph::new(7);
    for &(a, b) in &[(0, 1), (1, 2), (2, 0), (2, 3), (3, 4), (4, 3), (4, 5), (6, 6)] {
        g.add_edge(a, b);
    }
    let scc = TarjanScc::new(&g);
    let nodes = g.nodes();
    for &u in &nodes {
        let cu = scc.scc_for_node(u).unwrap();
        assert_eq!(scc.sccs[cu].iter().filter(|&&m| m == u).count(), 1);
        for &v in &nodes {
            let cv = scc.scc_for_node(v).unwrap();
            let mutual = reaches(&g, u, v) && reaches(&g, v, u);
            assert_eq!(cu == cv, mutual, "{} {}", u, v);
        }
    }
    assert_eq!(scc.sccs.len(), 4);
    assert_eq!(scc.scc_for_node(5).is_some(), true);
    assert_eq!(scc.scc_for_node(100), None);
}

#[test]
fn scc_components_close_downstream_first() {
    let mut g = Graph::new(3);
    g.add_edge(0, 1);
    g.add_edge(1, 2);
    let scc = TarjanScc::new(&g);
    assert_eq!(scc.sccs, vec![vec![2], vec![1], vec![0]]);
}

#[test]
fn simple_loop() {
    let mut bbs = blocks(vec![
        Terminator::IfElse { if_block: 1, else_block: 2 },
        Terminator::Branch { target: 0 },
        Terminator::Ret,
    ]);
    assert_eq!(loop_reconstruction(&mut bbs), Ok(()));
    assert_eq!(bbs.len(), 3);
    assert_eq!(bbs[0].next, Terminator::While { inner_block: 1, outer_block: 2 });
    assert_eq!(bbs[1].next, Terminator::Continue { target: 0 });
    assert_eq!(bbs[2].next, Terminator::Ret);
    assert_eq!(bbs[0].unconditional_loop_entry, None);
}

#[test]
fn loop_with_early_exit() {
    let mut bbs = blocks(vec![
        Terminator::IfElse { if_block: 1, else_block: 3 },
        Terminator::IfElse { if_block: 2, else_block: 3 },
        Terminator::Branch { target: 0 },
        Terminator::Ret,
    ]);
    assert_eq!(loop_reconstruction(&mut bbs), Ok(()));
    assert_eq!(bbs.len(), 5);
    assert_eq!(bbs[0].next, Terminator::While { inner_block: 1, outer_block: 3 });
    assert_eq!(bbs[1].next, Terminator::IfElse { if_block: 2, else_block: 4 });
    assert_eq!(bbs[2].next, Terminator::Continue { target: 0 });
    assert_eq!(bbs[4].next, Terminator::Break { target: 3 });
    assert_eq!(bbs[4].offset, SYNTHETIC_OFFSET);
    assert_eq!(bbs[4].idx, 4);
    assert_eq!(bbs[4].topo_priority, Some(0));
    assert_eq!(bbs[4].topo_after, vec![1]);
    assert_eq!(bbs[4].topo_before, vec![3]);
}

#[test]
fn multi_entry_loop_is_rejected() {
    let mut bbs = blocks(vec![
        Terminator::IfElse { if_block: 1, else_block: 2 },
        Terminator::IfElse { if_block: 2, else_block: 3 },
        Terminator::Branch { target: 1 },
        Terminator::Ret,
    ]);
    assert_eq!(loop_reconstruction(&mut bbs), Err(StructureError::MultipleEntries));
    assert_eq!(bbs.len(), 4);
    assert_eq!(bbs[2].next, Terminator::Branch { target: 1 });
}

#[test]
fn malformed_loop_entry_is_rejected() {
    // The entry's `if` arm leaves the loop, but not to the exit that the
    // largest offset picks; its `else` arm stays inside.
    let mut bbs = blocks(vec![
        Terminator::IfElse { if_block: 2, else_block: 1 },
        Terminator::IfElse { if_block: 0, else_block: 3 },
        Terminator::Ret,
        Terminator::Ret,
    ]);
    assert_eq!(loop_reconstruction(&mut bbs), Err(StructureError::MalformedLoopEntry));
}

#[test]
fn unconditional_loop_records_exit() {
    let mut bbs = blocks(vec![
        Terminator::Branch { target: 1 },
        Terminator::IfElse { if_block: 2, else_block: 3 },
        Terminator::Branch { target: 1 },
        Terminator::Ret,
    ]);
    // Block 1 is entered from 0 and loops through 2; its `else` leaves.
    assert_eq!(loop_reconstruction(&mut bbs), Ok(()));
    assert_eq!(bbs[1].next, Terminator::While { inner_block: 2, outer_block: 3 });

    let mut bbs = blocks(vec![
        Terminator::Branch { target: 1 },
        Terminator::Branch { target: 2 },
        Terminator::IfElse { if_block: 1, else_block: 3 },
        Terminator::Ret,
    ]);
    assert_eq!(loop_reconstruction(&mut bbs), Ok(()));
    assert_eq!(bbs[1].unconditional_loop_entry, Some(3));
    assert_eq!(bbs[1].next, Terminator::Branch { target: 2 });
    // The latch's arms go through a `Continue` and a `Break` block.
    assert_eq!(bbs[2].next, Terminator::IfElse { if_block: 4, else_block: 5 });
    assert_eq!(bbs[4].next, Terminator::Continue { target: 1 });
    assert_eq!(bbs[5].next, Terminator::Break { target: 3 });
}

#[test]
fn self_loop_without_exit() {
    let mut bbs = blocks(vec![Terminator::Branch { target: 0 }]);
    assert_eq!(loop_reconstruction(&mut bbs), Ok(()));
    assert_eq!(bbs[0].next, Terminator::Continue { target: 0 });
    assert_eq!(bbs[0].unconditional_loop_entry, Some(NO_EXIT));
}

#[test]
fn acyclic_input_is_left_alone() {
    let terms = vec![
        Terminator::IfElse { if_block: 1, else_block: 2 },
        Terminator::Branch { target: 2 },
        Terminator::Ret,
    ];
    let mut bbs = blocks(terms.clone());
    assert_eq!(loop_reconstruction(&mut bbs), Ok(()));
    assert_eq!(bbs.len(), 3);
    for (i, t) in terms.iter().enumerate() {
        assert_eq!(bbs[i].next, *t);
        assert_eq!(bbs[i].unconditional_loop_entry, None);
    }
}

#[test]
fn nested_loops() {
    // 0: outer head, 1: inner head, 2: inner latch, 3: outer latch, 4: exit.
    let mut bbs = blocks(vec![
        Terminator::IfElse { if_block: 1, else_block: 4 },
        Terminator::IfElse { if_block: 2, else_block: 3 },
        Terminator::Branch { target: 1 },
        Terminator::Branch { target: 0 },
        Terminator::Ret,
    ]);
    assert_eq!(loop_reconstruction(&mut bbs), Ok(()));
    assert_eq!(bbs[0].next, Terminator::While { inner_block: 1, outer_block: 4 });
    assert_eq!(bbs[1].next, Terminator::While { inner_block: 2, outer_block: 3 });
    assert_eq!(bbs[2].next, Terminator::Continue { target: 1 });
    assert_eq!(bbs[3].next, Terminator::Continue { target: 0 });
}

#[test]
fn break_and_continue_targets_are_loop_exit_and_entry() {
    let mut bbs = blocks(vec![
        Terminator::IfElse { if_block: 1, else_block: 3 },
        Terminator::IfElse { if_block: 2, else_block: 3 },
        Terminator::IfElse { if_block: 0, else_block: 1 },
        Terminator::Ret,
    ]);
    assert_eq!(loop_reconstruction(&mut bbs), Ok(()));
    for b in &bbs {
        match b.next {
            Terminator::Break { target } => assert_eq!(target, 3),
            Terminator::Continue { target } => assert!(target == 0 || target == 1),
            _ => {}
        }
    }
    assert_eq!(bbs[0].next, Terminator::While { inner_block: 1, outer_block: 3 });
}

#[test]
fn exit_heuristic_prefers_largest_offset() {
    let mut bbs = blocks(vec![Terminator::Ret, Terminator::Ret, Terminator::Ret]);
    bbs[1].offset = 70;
    bbs[2].offset = 40;
    assert_eq!(exit_by_largest_offset(&bbs, &vec![2, 1]), 1);
    assert_eq!(exit_by_largest_offset(&bbs, &vec![]), 0);
}

#[test]
fn graph_view_skips_outside_blocks() {
    let bbs = blocks(vec![
        Terminator::Branch { target: 1 },
        Terminator::Branch { target: 2 },
        Terminator::Branch { target: 1 },
    ]);
    let view = vec![false, false, true];
    let g = build_graph(&bbs, &view, 0);
    assert_eq!(g.nodes(), Vec::<usize>::new());
    let view = vec![false, true, true];
    let g = build_graph(&bbs, &view, 0);
    assert_eq!(g.nodes(), vec![1, 2]);
    assert_eq!(g.edges(1), &vec![2]);
    assert_eq!(g.edges(2), &vec![1]);
}

#[test]
fn topo_sort_with_forced_constraint() {
    let mut bbs = blocks(vec![Terminator::Ret, Terminator::Ret, Terminator::Ret]);
    bbs[0].offset = 300;
    bbs[1].offset = 200;
    bbs[2].offset = 100;
    bbs[0].topo_priority = Some(9);
    bbs[2].topo_priority = Some(0);
    bbs[0].topo_before = vec![1];
    bbs[2].topo_after = vec![1];
    let out = topo_sort(bbs).unwrap();
    let offsets: Vec<usize> = out.iter().map(|b| b.offset).collect();
    assert_eq!(offsets, vec![300, 200, 100]);
    for (i, b) in out.iter().enumerate() {
        assert_eq!(b.idx, i);
    }
}

#[test]
fn topo_sort_keeps_indices_consistent() {
    let mut bbs = blocks(vec![
        Terminator::IfElse { if_block: 1, else_block: 3 },
        Terminator::IfElse { if_block: 2, else_block: 3 },
        Terminator::Branch { target: 0 },
        Terminator::Ret,
    ]);
    assert_eq!(loop_reconstruction(&mut bbs), Ok(()));
    let out = topo_sort(bbs).unwrap();
    let n = out.len();
    assert_eq!(n, 5);
    for (i, b) in out.iter().enumerate() {
        assert_eq!(b.idx, i);
        for t in b.next.next_blocks() {
            assert!(t < n);
        }
        assert!(b.topo_before.iter().all(|&x| x < n));
        assert!(b.topo_after.iter().all(|&x| x < n));
    }
    // The loop entry comes first, the code after the loop last, and the
    // synthetic `Break` directly after the block it leaves from.
    assert_eq!(out[0].offset, 0);
    assert_eq!(out[4].offset, 30);
    let brk = out.iter().position(|b| b.offset == SYNTHETIC_OFFSET).unwrap();
    assert_eq!(out[brk].next, Terminator::Break { target: 4 });
    assert_eq!(out[brk - 1].offset, 10);
    assert_eq!(out[0].next, Terminator::While { inner_block: 1, outer_block: 4 });
}

#[test]
fn topo_sort_rejects_fall_through() {
    let bbs = blocks(vec![Terminator::Branch { target: 1 }, Terminator::Normal]);
    assert_eq!(topo_sort(bbs).err(), Some(StructureError::UnsupportedTerminator));
}

#[test]
fn topo_sort_reports_constraint_cycle() {
    let mut bbs = blocks(vec![Terminator::Branch { target: 1 }, Terminator::Branch { target: 0 }]);
    bbs[0].topo_after = vec![1];
    bbs[1].topo_after = vec![0];
    assert_eq!(topo_sort(bbs).err(), Some(StructureError::ConstraintCycle));
}

#[test]
fn topo_sort_breaks_plain_cycles() {
    let edges = vec![vec![1], vec![2], vec![1]];
    let none = vec![vec![], vec![], vec![]];
    // Nothing is ready after 0: the smallest waiting id goes next.
    assert_eq!(topo_sort_stable_usize(&edges, &none, &vec![5, 3, 1]), Ok(vec![0, 1, 2]));
}

#[test]
fn topo_sort_orders_ready_blocks_by_priority() {
    let edges = vec![vec![1, 2], vec![], vec![]];
    let none = vec![vec![], vec![], vec![]];
    assert_eq!(topo_sort_stable_usize(&edges, &none, &vec![0, 7, 3]), Ok(vec![0, 2, 1]));
    assert_eq!(topo_sort_stable_usize(&edges, &none, &vec![0, 3, 3]), Ok(vec![0, 1, 2]));
}

#[test]
fn topo_sort_drops_unreachable_blocks() {
    let edges = vec![vec![], vec![0]];
    let none = vec![vec![], vec![]];
    assert_eq!(topo_sort_stable_usize(&edges, &none, &vec![1, 0]), Ok(vec![0]));
}

#[test]
fn constraint_predecessors_hold_back_the_entry() {
    let mut bbs = blocks(vec![Terminator::Branch { target: 1 }, Terminator::Ret]);
    bbs[0].topo_after = vec![1];
    let out = topo_sort(bbs).unwrap();
    let offsets: Vec<usize> = out.iter().map(|b| b.offset).collect();
    assert_eq!(offsets, vec![10, 0]);
    assert_eq!(out[1].next, Terminator::Branch { target: 0 });
    assert_eq!(out[1].topo_after, vec![0]);
}

#[test]
fn stable_sort_respects_constraint_edges() {
    let edges = vec![vec![1, 2], vec![], vec![]];
    let cons = vec![vec![], vec![], vec![1]];
    assert_eq!(topo_sort_stable_usize(&edges, &cons, &vec![0, 1, 2]), Ok(vec![0, 2, 1]));
}

#[test]
fn self_jumping_entry_is_marked_as_loop() {
    let mut bbs = blocks(vec![Terminator::IfElse { if_block: 0, else_block: 1 }, Terminator::Ret]);
    assert_eq!(loop_reconstruction(&mut bbs), Ok(()));
    assert_eq!(bbs[0].next, Terminator::While { inner_block: 0, outer_block: 1 });
}
