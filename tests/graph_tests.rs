use organomenar::connectivity::find_connex;
use organomenar::graph::{
    add_link, add_node, get_block_unchecked, is_well_formed, get_block_unchecked_mut, get_two_blocks_unchecked_mut,
    remove_hanging_links, remove_link, remove_node, set_position, GraphError, Position, UiBlock,
};
use organomenar::radical::UiRadical;

fn block(id: u128, radical: UiRadical) -> UiBlock {
    UiBlock {
        pos: Position { x: id as u32, y: 7 },
        radical,
        links: vec![],
        id,
    }
}

fn graph(kinds: &[(u128, UiRadical)]) -> Vec<UiBlock> {
    let mut g = Vec::new();
    for &(id, r) in kinds {
        add_node(&mut g, block(id, r)).unwrap();
    }
    g
}

fn ids(v: &[UiBlock]) -> Vec<u128> {
    v.iter().map(|b| b.id).collect()
}

fn count(v: &[u128], x: u128) -> usize {
    v.iter().filter(|&&l| l == x).count()
}

fn symmetric(g: &[UiBlock]) -> bool {
    g.iter()
        .all(|a| g.iter().all(|b| count(&a.links, b.id) == count(&b.links, a.id)))
}

#[test]
fn isolated_node_is_its_own_component() {
    let g = graph(&[(1, UiRadical::C), (2, UiRadical::F)]);
    let comp = find_connex(&g, 1).unwrap();
    assert_eq!(ids(&comp), vec![2]);
}

#[test]
fn triangle_signals_cycle() {
    let mut g = graph(&[(1, UiRadical::C), (2, UiRadical::C), (3, UiRadical::C)]);
    add_link(&mut g, 1, 2).unwrap();
    add_link(&mut g, 2, 3).unwrap();
    add_link(&mut g, 3, 1).unwrap();
    for start in 0..3 {
        assert_eq!(find_connex(&g, start).err(), Some(GraphError::CycleDetected));
    }
}

#[test]
fn path_is_found_from_either_end() {
    let mut g = graph(&[(10, UiRadical::C), (20, UiRadical::C), (30, UiRadical::C), (40, UiRadical::F)]);
    add_link(&mut g, 10, 20).unwrap();
    add_link(&mut g, 20, 30).unwrap();
    assert_eq!(ids(&find_connex(&g, 0).unwrap()), vec![10, 20, 30]);
    assert_eq!(ids(&find_connex(&g, 2).unwrap()), vec![10, 20, 30]);
    assert_eq!(ids(&find_connex(&g, 1).unwrap()), vec![10, 20, 30]);
}

#[test]
fn double_bond_closes_a_cycle_of_two() {
    let mut g = graph(&[(1, UiRadical::C), (2, UiRadical::C)]);
    add_link(&mut g, 1, 2).unwrap();
    add_link(&mut g, 1, 2).unwrap();
    assert_eq!(find_connex(&g, 0).err(), Some(GraphError::CycleDetected));
}

#[test]
fn component_keeps_graph_order_and_copies_nodes() {
    let mut g = graph(&[(5, UiRadical::Alcohol), (3, UiRadical::C), (9, UiRadical::Br)]);
    add_link(&mut g, 3, 5).unwrap();
    let comp = find_connex(&g, 1).unwrap();
    assert_eq!(ids(&comp), vec![5, 3]);
    assert_eq!(comp[0].links, vec![3]);
    assert_eq!(comp[1].radical, UiRadical::C);
    assert_eq!(comp[1].pos, Position { x: 3, y: 7 });
}

#[test]
fn double_bond_has_order_two() {
    let mut g = graph(&[(7, UiRadical::C), (4, UiRadical::C)]);
    add_link(&mut g, 7, 4).unwrap();
    add_link(&mut g, 7, 4).unwrap();
    assert_eq!(g[0].links, vec![4, 4]);
    assert_eq!(g[1].links, vec![7, 7]);
    assert_eq!(UiBlock::count_links(&g), vec![(4, 7, 2)]);
}

#[test]
fn count_links_lists_each_bond_once() {
    let mut g = graph(&[(1, UiRadical::C), (2, UiRadical::C), (3, UiRadical::Alcohol)]);
    add_link(&mut g, 1, 2).unwrap();
    add_link(&mut g, 2, 3).unwrap();
    add_link(&mut g, 2, 1).unwrap();
    add_link(&mut g, 2, 1).unwrap();
    assert_eq!(UiBlock::count_links(&g), vec![(1, 2, 3), (2, 3, 1)]);
    assert!(UiBlock::count_links(&graph(&[(1, UiRadical::C)])).is_empty());
}

#[test]
fn removing_a_node_severs_its_bonds() {
    let mut g = graph(&[(1, UiRadical::C), (2, UiRadical::C), (3, UiRadical::Cl)]);
    add_link(&mut g, 1, 2).unwrap();
    add_link(&mut g, 2, 3).unwrap();
    add_link(&mut g, 2, 3).unwrap();
    let removed = remove_node(&mut g, 2).unwrap();
    assert_eq!(removed.id, 2);
    assert_eq!(removed.links, vec![1, 3, 3]);
    assert_eq!(ids(&g), vec![1, 3]);
    assert!(g.iter().all(|b| b.links.is_empty()));
    assert!(UiBlock::count_links(&g)
        .iter()
        .all(|&(a, b, _)| a != 2 && b != 2));
    assert_eq!(remove_node(&mut g, 2).err(), Some(GraphError::NotFound(2)));
}

#[test]
fn bonds_stay_symmetric_through_edits() {
    let mut g = graph(&[(1, UiRadical::C), (2, UiRadical::C), (3, UiRadical::C), (4, UiRadical::F)]);
    add_link(&mut g, 1, 2).unwrap();
    assert!(symmetric(&g));
    add_link(&mut g, 2, 3).unwrap();
    add_link(&mut g, 3, 2).unwrap();
    assert!(symmetric(&g));
    add_link(&mut g, 3, 4).unwrap();
    assert_eq!(remove_link(&mut g, 2, 3), Ok(true));
    assert!(symmetric(&g));
    remove_node(&mut g, 3).unwrap();
    assert!(symmetric(&g));
    let mut n = block(5, UiRadical::Eter);
    n.links = vec![1, 4, 99, 5];
    add_node(&mut g, n).unwrap();
    assert!(symmetric(&g));
    assert_eq!(g.last().unwrap().links, vec![1, 4]);
    assert_eq!(g[0].links, vec![2, 5]);
}

#[test]
fn duplicate_identifier_is_refused() {
    let mut g = graph(&[(1, UiRadical::C)]);
    assert_eq!(
        add_node(&mut g, block(1, UiRadical::F)),
        Err(GraphError::DuplicateIdentifier(1))
    );
    assert_eq!(g.len(), 1);
    assert_eq!(g[0].radical, UiRadical::C);
}

#[test]
fn bond_errors() {
    let mut g = graph(&[(1, UiRadical::C), (2, UiRadical::C)]);
    assert_eq!(add_link(&mut g, 1, 9), Err(GraphError::NotFound(9)));
    assert_eq!(add_link(&mut g, 8, 9), Err(GraphError::NotFound(8)));
    assert_eq!(add_link(&mut g, 1, 1), Err(GraphError::SelfBond(1)));
    assert_eq!(remove_link(&mut g, 1, 2), Ok(false));
    assert_eq!(remove_link(&mut g, 1, 9), Err(GraphError::NotFound(9)));
    assert_eq!(remove_link(&mut g, 1, 1), Ok(false));
    assert_eq!(get_two_blocks_unchecked_mut(&g, 1, 2), Ok((0, 1)));
    assert_eq!(get_two_blocks_unchecked_mut(&g, 2, 2), Err(GraphError::SelfBond(2)));
}

#[test]
fn remove_link_takes_one_unit() {
    let mut g = graph(&[(1, UiRadical::C), (2, UiRadical::C)]);
    add_link(&mut g, 1, 2).unwrap();
    add_link(&mut g, 1, 2).unwrap();
    assert_eq!(remove_link(&mut g, 2, 1), Ok(true));
    assert_eq!(g[0].links, vec![2]);
    assert_eq!(g[1].links, vec![1]);
    assert_eq!(UiBlock::count_links(&g), vec![(1, 2, 1)]);
}

#[test]
fn lookups() {
    let mut g = graph(&[(1, UiRadical::C), (2, UiRadical::Nitril)]);
    assert_eq!(get_block_unchecked(&g, 2).unwrap().radical, UiRadical::Nitril);
    assert_eq!(get_block_unchecked(&g, 3).err(), Some(GraphError::NotFound(3)));
    get_block_unchecked_mut(&mut g, 1).unwrap().pos = Position { x: 50, y: 60 };
    assert_eq!(g[0].pos, Position { x: 50, y: 60 });
    assert!(get_block_unchecked_mut(&mut g, 3).is_err());
    assert_eq!(set_position(&mut g, 2, Position { x: 1, y: 2 }), Ok(()));
    assert_eq!(g[1].pos, Position { x: 1, y: 2 });
    assert_eq!(set_position(&mut g, 4, Position { x: 1, y: 2 }), Err(GraphError::NotFound(4)));
}

#[test]
fn hanging_links_are_removed() {
    let mut g = vec![block(1, UiRadical::C), block(2, UiRadical::C)];
    g[0].links = vec![3, 2, 3];
    g[1].links = vec![3];
    remove_hanging_links(&mut g, 3);
    assert_eq!(g[0].links, vec![2]);
    assert!(g[1].links.is_empty());
}

#[test]
fn duplicate_copies_a_node() {
    let mut b = block(4, UiRadical::Ester);
    b.links = vec![1, 2];
    let c = b.duplicate();
    assert_eq!(c.id, 4);
    assert_eq!(c.links, vec![1, 2]);
    assert_eq!(c.radical, UiRadical::Ester);
    assert_eq!(c.pos, b.pos);
}

#[test]
fn link_slots_follow_free_valence() {
    let mut c = block(1, UiRadical::C);
    assert_eq!(c.link_slots(), vec![0, 1, 2, 3]);
    c.links = vec![5];
    assert_eq!(c.link_slots(), vec![0, 1, 2]);
    c.links = vec![5, 6, 7, 8, 9];
    assert!(c.link_slots().is_empty());
    let mut e = block(2, UiRadical::Eter);
    assert_eq!(e.link_slots(), vec![1, 3]);
    e.links = vec![1];
    assert_eq!(e.link_slots(), vec![1]);
    assert_eq!(block(3, UiRadical::F).link_slots(), vec![3]);
}

#[test]
fn well_formedness_check() {
    let mut g = graph(&[(1, UiRadical::C), (2, UiRadical::C), (3, UiRadical::F)]);
    add_link(&mut g, 1, 2).unwrap();
    add_link(&mut g, 2, 3).unwrap();
    assert!(is_well_formed(&g));
    assert!(is_well_formed(&[]));
    let mut lopsided = g.iter().map(|b| b.duplicate()).collect::<Vec<_>>();
    lopsided[0].links.push(2);
    assert!(!is_well_formed(&lopsided));
    let mut dangling = g.iter().map(|b| b.duplicate()).collect::<Vec<_>>();
    dangling[2].links.push(9);
    assert!(!is_well_formed(&dangling));
    let mut own = g.iter().map(|b| b.duplicate()).collect::<Vec<_>>();
    own[2].links.push(3);
    assert!(!is_well_formed(&own));
    let twice = vec![block(4, UiRadical::C), block(4, UiRadical::F)];
    assert!(!is_well_formed(&twice));
}
