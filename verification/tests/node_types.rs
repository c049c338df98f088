use hetero_rust::sim::NodeTypeFeatureSize;
use hetero_rust::{DblpNodeType, ImdbNodeType, LastFmNodeType, NodeId, NodeLayer, OgbMagNodeType};

#[test]
fn dblp_names() {
    assert_eq!(DblpNodeType::Author.to_string(), "author");
    assert_eq!(DblpNodeType::Paper.to_string(), "paper");
    assert_eq!(DblpNodeType::Conference.to_string(), "conference");
    assert_eq!(DblpNodeType::Term.to_string(), "term");
}

#[test]
fn imdb_names() {
    assert_eq!(ImdbNodeType::Movie.to_string(), "movie");
    assert_eq!(ImdbNodeType::Director.to_string(), "director");
    assert_eq!(ImdbNodeType::Actor.to_string(), "actor");
}

#[test]
fn last_fm_names() {
    assert_eq!(LastFmNodeType::User.to_string(), "user");
    assert_eq!(LastFmNodeType::Artist.to_string(), "artist");
    assert_eq!(LastFmNodeType::Tag.to_string(), "tag");
}

#[test]
fn ogb_mag_names() {
    assert_eq!(OgbMagNodeType::Author.to_string(), "author");
    assert_eq!(OgbMagNodeType::Institution.to_string(), "institution");
    assert_eq!(OgbMagNodeType::FieldOfStudy.to_string(), "field_of_study");
    assert_eq!(OgbMagNodeType::Paper.to_string(), "paper");
}

#[test]
fn codes_tell_types_apart() {
    let codes = [
        DblpNodeType::Author.code(),
        DblpNodeType::Paper.code(),
        DblpNodeType::Conference.code(),
        DblpNodeType::Term.code(),
    ];
    assert_eq!(codes, [0, 1, 2, 3]);
    assert_eq!(ImdbNodeType::Actor.code(), 2);
    assert_eq!(LastFmNodeType::Tag.code(), 2);
    assert_eq!(OgbMagNodeType::FieldOfStudy.code(), 2);
}

#[test]
fn feature_sizes_are_128() {
    assert_eq!(DblpNodeType::Term.feature_size(), 128);
    assert_eq!(ImdbNodeType::Movie.feature_size(), 128);
    assert_eq!(LastFmNodeType::User.feature_size(), 128);
}

#[test]
fn node_id_key() {
    let n = NodeId { layer: DblpNodeType::Conference, id: 7 };
    assert_eq!(n.key(), (2, 7));
}
