use rand::Rng;
use timetabling::tsp::calculate_total_distance;
use timetabling::tsp::christofides::{
    find_eulerian_circuit, minimum_perfect_matching, prim_mst, solve,
};

fn random_adjacency_matrix(size: usize) -> Vec<Vec<i32>> {
    let mut rng = rand::thread_rng();

    let mut adj_matrix = vec![vec![0; size]; size];

    for i in 0..size {
        for j in i + 1..size {
            let weight = rng.gen_range(1..=10);
            adj_matrix[i][j] = weight;
            adj_matrix[j][i] = weight;
        }
    }

    adj_matrix
}

#[test]
fn test_all_tsp() {
    let size = 1000;
    let adjacency_matrix = random_adjacency_matrix(size);

    let mut chri_solution = solve(&adjacency_matrix);
    chri_solution.dedup();
    assert_eq!(chri_solution.len(), size);
    assert!(calculate_total_distance(&chri_solution, &adjacency_matrix) >= size as i128);
}

#[test]
fn test_tour_of_three_nodes() {
    let adj = vec![vec![0, 1, 2], vec![1, 0, 3], vec![2, 3, 0]];
    let tree = prim_mst(&adj);
    assert_eq!(
        tree,
        vec![vec![(1, 1), (2, 2)], vec![(0, 1), (2, 3)], vec![(0, 2), (1, 3)]]
    );
    let mut lists = tree.clone();
    let circuit = find_eulerian_circuit(&mut lists);
    assert_eq!(circuit, vec![0, 2, 1, 2, 0, 1, 0]);
    assert!(lists.iter().all(|l| l.is_empty()));
    assert_eq!(solve(&adj), vec![0, 2, 1]);
}

#[test]
fn test_spanning_structure_visits_the_cheapest_reached_node_first() {
    // from node 0 the nodes 1 and 3 are reached as cheaply: the later
    // one, node 3, is visited first, and reaches node 2
    let adj = vec![
        vec![0, 4, 0, 4],
        vec![4, 0, 0, 0],
        vec![0, 0, 0, 1],
        vec![4, 0, 1, 0],
    ];
    let tree = prim_mst(&adj);
    assert_eq!(
        tree,
        vec![vec![(1, 4), (3, 4)], vec![(0, 4)], vec![(3, 1)], vec![(0, 4), (2, 1)]]
    );
    // no edge of positive weight: only the first node is visited
    let apart = vec![vec![0, 0], vec![0, 0]];
    assert_eq!(prim_mst(&apart), vec![vec![], vec![]]);
    assert_eq!(solve(&apart), vec![0]);
    assert!(prim_mst(&vec![]).is_empty());
    assert!(solve(&vec![]).is_empty());
}

#[test]
fn test_matching_takes_the_first_of_the_cheapest_partners() {
    let adj = vec![
        vec![0, 5, 2, 2],
        vec![5, 0, 7, 1],
        vec![2, 7, 0, 9],
        vec![2, 1, 9, 0],
    ];
    assert_eq!(
        minimum_perfect_matching(&adj, &vec![0, 1, 2, 3]),
        vec![(0, 2), (1, 3), (2, 0), (3, 1)]
    );
    assert_eq!(minimum_perfect_matching(&adj, &vec![1, 2]), vec![(1, 2), (2, 1)]);
    assert_eq!(minimum_perfect_matching(&adj, &vec![3]), vec![(3, 0)]);
    assert!(minimum_perfect_matching(&adj, &vec![]).is_empty());
}

#[test]
fn test_tour_lists_every_node_from_the_first() {
    // only the first node is joined to the others
    let star = vec![
        vec![0, 3, 1, 2],
        vec![3, 0, 0, 0],
        vec![1, 0, 0, 0],
        vec![2, 0, 0, 0],
    ];
    let tour = solve(&star);
    assert_eq!(tour.len(), 4);
    assert_eq!(tour[0], 0);
    let mut sorted = tour.clone();
    sorted.sort();
    assert_eq!(sorted, vec![0, 1, 2, 3]);
    let adj = random_adjacency_matrix(30);
    let tour = solve(&adj);
    assert_eq!(tour.len(), 30);
    assert_eq!(tour[0], 0);
}
