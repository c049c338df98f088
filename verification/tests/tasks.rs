use hetero_rust::get_all_taskpack;

#[test]
fn task_table() {
    let tasks = get_all_taskpack();
    let names: Vec<&str> = tasks.iter().map(|t| t.graph_name.as_str()).collect();
    assert_eq!(names, vec!["dblp", "imdb", "last-fm", "ogb-mag"]);
    assert_eq!(tasks[2].graph_path, "splited_graph/last-fm");
    let counts: Vec<usize> = tasks.iter().map(|t| t.metapathes.metapathes.len()).collect();
    assert_eq!(counts, vec![3, 6, 4, 2]);
}

#[test]
fn task_metapaths() {
    let tasks = get_all_taskpack();
    let p = tasks[1].metapathes.metapathes[2].path();
    assert_eq!(p, &vec!["director", "movie", "director"]);
    let p = tasks[1].metapathes.metapathes[3].path();
    assert_eq!(p, &vec!["director", "movie", "actor", "movie", "director"]);
    let p = tasks[3].metapathes.metapathes[1].path();
    assert_eq!(p, &vec!["author", "paper", "field_of_study", "paper", "author"]);
    let p = tasks[0].metapathes.metapathes[0].path();
    assert_eq!(p, &vec!["author", "paper", "author"]);
}
