use pg_search::resources::{IndexOptions, ResourceSettings, WriterResources};
use pg_search::writer_dir::{
    parse_relfilenode,
    SearchIndexConfigFilePath, SearchIndexDirPath, SearchIndexEntity, TantivyDirPath,
    WriterDirectory,
};

#[test]
fn index_paths_follow_the_layout() {
    let dir = WriterDirectory::from_oids(16384, 24576, 24580, b"/var/lib/postgres/data".to_vec());
    assert_eq!(
        WriterDirectory::index_dir_path(16384, 24576),
        b"pg_search/16384/24576".to_vec()
    );
    assert_eq!(
        dir.search_index_dir_path(),
        SearchIndexDirPath(b"/var/lib/postgres/data/pg_search/16384/24576/24580".to_vec())
    );
    assert_eq!(
        dir.search_index_config_file_path(),
        SearchIndexConfigFilePath(
            b"/var/lib/postgres/data/pg_search/16384/24576/24580/search-index.json".to_vec()
        )
    );
    assert_eq!(
        dir.tantivy_dir_path(),
        TantivyDirPath(b"/var/lib/postgres/data/pg_search/16384/24576/24580/tantivy".to_vec())
    );
}

#[test]
fn data_dir_with_trailing_slash_and_zero_oids() {
    let dir = WriterDirectory::from_oids(0, 7, 0, b"/data/".to_vec());
    assert_eq!(dir.search_index_dir_path(), SearchIndexDirPath(b"/data/pg_search/0/7/0".to_vec()));
    let e = SearchIndexEntity::from_oids(1, 2, 3);
    assert_eq!((e.database_oid, e.index_oid, e.relfilenode), (1, 2, 3));
}

#[test]
fn writer_resources_by_kind_of_work() {
    let settings = ResourceSettings {
        create_index_parallelism: 8,
        create_index_memory_budget: 1 << 30,
        statement_parallelism: 2,
        statement_memory_budget: 1 << 26,
    };
    let options = IndexOptions { target_segment_count: 10, merge_on_insert: false };
    assert_eq!(WriterResources::CreateIndex.resources(&settings, &options), (8, 1 << 30, 10, true));
    assert_eq!(WriterResources::Statement.resources(&settings, &options), (2, 1 << 26, 10, false));
    assert_eq!(WriterResources::Vacuum.resources(&settings, &options), (2, 1 << 26, 10, true));
}

#[test]
fn relfilenode_folder_names() {
    assert_eq!(parse_relfilenode(b"24580"), Some(24580));
    assert_eq!(parse_relfilenode(b"+7"), Some(7));
    assert_eq!(parse_relfilenode(b"007"), Some(7));
    assert_eq!(parse_relfilenode(b"4294967295"), Some(u32::MAX));
    assert_eq!(parse_relfilenode(b"4294967296"), None);
    assert_eq!(parse_relfilenode(b"99999999999x"), None);
    assert_eq!(parse_relfilenode(b""), None);
    assert_eq!(parse_relfilenode(b"+"), None);
    assert_eq!(parse_relfilenode(b"12a"), None);
    assert_eq!(parse_relfilenode(b"-1"), None);
}
