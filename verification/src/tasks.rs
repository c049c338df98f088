//! The benchmark tasks: each graph with the metapaths to evaluate on it.
use vstd::prelude::*;
use vstd::string::StringExecFns;
use crate::metapath::{lemma_metapath_from_names, names_of, MetaPathesPack, Metapath};

verus! {

/// A graph to load and the metapaths to evaluate on it.
pub struct TaskPack {
    pub graph_name: String,
    /// The directory that holds the graph's subgraph files.
    pub graph_path: String,
    pub metapathes: MetaPathesPack,
}

/// The benchmark graphs, each with its metapaths (as node type names).
pub open spec fn benchmark_tasks() -> Seq<(Seq<char>, Seq<Seq<Seq<char>>>)> {
    seq![
        ("dblp"@, seq![
            seq!["author"@, "paper"@, "author"@],
            seq!["author"@, "paper"@, "conference"@, "paper"@, "author"@],
            seq!["author"@, "paper"@, "term"@, "paper"@, "author"@],
        ]),
        ("imdb"@, seq![
            seq!["movie"@, "director"@, "movie"@],
            seq!["movie"@, "actor"@, "movie"@],
            seq!["director"@, "movie"@, "director"@],
            seq!["director"@, "movie"@, "actor"@, "movie"@, "director"@],
            seq!["actor"@, "movie"@, "actor"@],
            seq!["actor"@, "movie"@, "director"@, "movie"@, "actor"@],
        ]),
        ("last-fm"@, seq![
            seq!["user"@, "artist"@, "user"@],
            seq!["user"@, "artist"@, "tag"@, "artist"@, "user"@],
            seq!["artist"@, "user"@, "artist"@],
            seq!["artist"@, "tag"@, "artist"@],
        ]),
        ("ogb-mag"@, seq![
            seq!["author"@, "paper"@, "author"@],
            seq!["author"@, "paper"@, "field_of_study"@, "paper"@, "author"@],
        ]),
    ]
}

/// The directory that holds a benchmark graph's subgraph files.
pub open spec fn graph_dir(name: Seq<char>) -> Seq<char> {
    "splited_graph/"@ + name
}

/// A metapath over the given node type names.
fn metapath_of(names: Vec<String>) -> (m: Metapath)
    ensures
        m.names() == names_of(names@),
{
    proof {
        lemma_metapath_from_names(names);
    }
    Metapath::from(names)
}

/// A task for a graph and its metapaths.
fn task_of(graph_name: &str, metapathes: Vec<Metapath>) -> (t: TaskPack)
    ensures
        t.graph_name@ == graph_name@,
        t.graph_path@ == graph_dir(graph_name@),
        t.metapathes.metapathes@ == metapathes@,
{
    let graph_path = String::from_str("splited_graph/").concat(graph_name);
    TaskPack {
        graph_name: String::from_str(graph_name),
        graph_path,
        metapathes: MetaPathesPack { metapathes },
    }
}

/// Every benchmark graph with the metapaths to evaluate on it.
pub fn get_all_taskpack() -> (tasks: Vec<TaskPack>)
    ensures
        tasks@.len() == benchmark_tasks().len(),
        forall|i: int|
            0 <= i < tasks@.len() ==> {
                let t = #[trigger] tasks@[i];
                let (name, paths) = benchmark_tasks()[i];
                &&& t.graph_name@ == name
                &&& t.graph_path@ == graph_dir(name)
                &&& t.metapathes.metapathes@.len() == paths.len()
                &&& forall|j: int|
                    0 <= j < paths.len() ==> (#[trigger] t.metapathes.metapathes@[j]).names()
                        == paths[j]
            },
{
    let author = "author";
    let paper = "paper";
    let dblp = vec![
        metapath_of(vec![String::from_str(author), String::from_str(paper), String::from_str(author)]),
        metapath_of(
            vec![
                String::from_str(author),
                String::from_str(paper),
                String::from_str("conference"),
                String::from_str(paper),
                String::from_str(author),
            ],
        ),
        metapath_of(
            vec![
                String::from_str(author),
                String::from_str(paper),
                String::from_str("term"),
                String::from_str(paper),
                String::from_str(author),
            ],
        ),
    ];
    let movie = "movie";
    let director = "director";
    let actor = "actor";
    let imdb = vec![
        metapath_of(vec![String::from_str(movie), String::from_str(director), String::from_str(movie)]),
        metapath_of(vec![String::from_str(movie), String::from_str(actor), String::from_str(movie)]),
        metapath_of(vec![String::from_str(director), String::from_str(movie), String::from_str(director)]),
        metapath_of(
            vec![
                String::from_str(director),
                String::from_str(movie),
                String::from_str(actor),
                String::from_str(movie),
                String::from_str(director),
            ],
        ),
        metapath_of(vec![String::from_str(actor), String::from_str(movie), String::from_str(actor)]),
        metapath_of(
            vec![
                String::from_str(actor),
                String::from_str(movie),
                String::from_str(director),
                String::from_str(movie),
                String::from_str(actor),
            ],
        ),
    ];
    let user = "user";
    let artist = "artist";
    let tag = "tag";
    let last_fm = vec![
        metapath_of(vec![String::from_str(user), String::from_str(artist), String::from_str(user)]),
        metapath_of(
            vec![
                String::from_str(user),
                String::from_str(artist),
                String::from_str(tag),
                String::from_str(artist),
                String::from_str(user),
            ],
        ),
        metapath_of(vec![String::from_str(artist), String::from_str(user), String::from_str(artist)]),
        metapath_of(vec![String::from_str(artist), String::from_str(tag), String::from_str(artist)]),
    ];
    let ogb_mag = vec![
        metapath_of(vec![String::from_str(author), String::from_str(paper), String::from_str(author)]),
        metapath_of(
            vec![
                String::from_str(author),
                String::from_str(paper),
                String::from_str("field_of_study"),
                String::from_str(paper),
                String::from_str(author),
            ],
        ),
    ];
    let tasks = vec![
        task_of("dblp", dblp),
        task_of("imdb", imdb),
        task_of("last-fm", last_fm),
        task_of("ogb-mag", ogb_mag),
    ];
    proof {
        let b = benchmark_tasks();
        assert(tasks@[0].metapathes.metapathes@[0].names() =~= b[0].1[0]);
        assert(tasks@[0].metapathes.metapathes@[1].names() =~= b[0].1[1]);
        assert(tasks@[0].metapathes.metapathes@[2].names() =~= b[0].1[2]);
        assert(tasks@[1].metapathes.metapathes@[0].names() =~= b[1].1[0]);
        assert(tasks@[1].metapathes.metapathes@[1].names() =~= b[1].1[1]);
        assert(tasks@[1].metapathes.metapathes@[2].names() =~= b[1].1[2]);
        assert(tasks@[1].metapathes.metapathes@[3].names() =~= b[1].1[3]);
        assert(tasks@[1].metapathes.metapathes@[4].names() =~= b[1].1[4]);
        assert(tasks@[2].metapathes.metapathes@[0].names() =~= b[2].1[0]);
        assert(tasks@[2].metapathes.metapathes@[1].names() =~= b[2].1[1]);
        assert(tasks@[2].metapathes.metapathes@[2].names() =~= b[2].1[2]);
        assert(tasks@[2].metapathes.metapathes@[3].names() =~= b[2].1[3]);
        assert(tasks@[3].metapathes.metapathes@[0].names() =~= b[3].1[0]);
        assert(tasks@[3].metapathes.metapathes@[1].names() =~= b[3].1[1]);
    }
    tasks
}

} // verus!
