use ergibus::attributes::Attributes;
use ergibus::fs_objects::{DirectoryData, FileData, FileSystemObject};
use ergibus::gui::SnapshotManager;
use ergibus::snapshot::SnapshotPersistentData;
use ergibus::gui::{
    CurrentDirectoryManager, MenuItemSpec, RowBuffer, RowDataSource, SelectionMode, SimpleList, SnapshotListViewBuilder,
    SortedTextItems,
};

#[test]
fn builder_collects_settings() {
    let mut b = SnapshotListViewBuilder::new();
    let spec = MenuItemSpec { label: "Open".to_string(), tooltip: None };
    b.menu_item(("open".to_string(), spec.clone(), 1))
        .id_field(2)
        .selection_mode(SelectionMode::Multiple)
        .menu_items(vec![("del".to_string(), spec, 2)]);
    assert_eq!(format!("{:?}", b).contains("Multiple"), true);
}

struct Counter(u32);

impl RowDataSource for Counter {
    type Row = u32;
    fn rows_and_digest(&self) -> (Vec<u32>, Vec<u8>) {
        ((0..self.0).collect(), vec![self.0 as u8])
    }
    fn digest(&self) -> Vec<u8> {
        vec![self.0 as u8]
    }
}

#[test]
fn row_buffer_tracks_digest() {
    let mut rb = RowBuffer::new(Counter(3));
    assert!(rb.get_rows().is_empty());
    assert!(!rb.is_current());
    rb.set_rows_and_digest();
    assert_eq!(rb.get_rows(), &vec![0, 1, 2]);
    assert!(rb.is_current());
    assert!(rb.digest_matches(&vec![3]));
    assert!(!rb.digest_matches(&vec![4]));
    assert_eq!(rb.row_data_source().0, 3);
}

#[test]
fn sorted_items_update() {
    let mut items = SortedTextItems::new();
    assert_eq!(items.insert_text_item("m"), -1);
    assert_eq!(items.insert_text_item("c"), 0);
    assert_eq!(items.insert_text_item("x"), -1);
    assert_eq!(items.get_text_items(), vec!["c".to_string(), "m".to_string(), "x".to_string()]);
    assert_eq!(items.get_item_index("m"), (true, 1));
    assert_eq!(items.get_item_index("d"), (false, 1));
    assert_eq!(items.get_item_index("z"), (false, -1));
    items.set_active_text("m");
    assert!(items.remove_text_item("m"));
    assert!(!items.remove_text_item("m"));
    items.update_with(&vec!["b".to_string(), "x".to_string(), "a".to_string()]);
    assert_eq!(items.get_text_items(), vec!["a".to_string(), "b".to_string(), "x".to_string()]);
}

#[test]
fn simple_list_rows() {
    let mut list = SimpleList::<String>::new();
    let rows = list.add_string("one");
    assert_eq!(rows, vec![vec!["one".to_string()]]);
    let rows = list.add_path_buf("/two");
    assert_eq!(rows, vec![vec!["one".to_string()], vec!["/two".to_string()]]);
    assert_eq!(list.repopulate().len(), 2);
}

#[test]
fn current_directory_bar() {
    let mut bar = CurrentDirectoryManager::new("/a");
    assert_eq!(bar.0.label, "/a");
    assert!(!bar.0.button_sensitive);
    bar.set_sensitive(true);
    bar.set_curr_dir_path("/a/b");
    assert_eq!(bar.0.label, "/a/b");
    assert!(bar.0.button_sensitive);
}

fn browse_tree() -> DirectoryData {
    let mut root = DirectoryData::new("/", Attributes::default());
    let mut home = root.new_child("home", Attributes::default()).unwrap();
    let docs = home.new_child("docs", Attributes::default()).unwrap();
    assert!(home.insert_object(FileSystemObject::Directory(docs)));
    assert!(home.insert_object(FileSystemObject::File(FileData::new("a.txt", Attributes::default(), "t"))));
    assert!(root.insert_object(FileSystemObject::Directory(home)));
    root
}

#[test]
fn snapshot_browsing_moves_between_directories() {
    let mut spd = SnapshotPersistentData::new(browse_tree(), "arch");
    spd.settle_base_dir();
    let mut manager = SnapshotManager::new(spd).unwrap();
    assert_eq!(manager.curr_dir().path(), "/home");
    assert_eq!(manager.repopulate(), vec![(0, "a.txt".to_string()), (1, "docs".to_string())]);
    manager.process_double_click(0);
    assert_eq!(manager.curr_dir().path(), "/home");
    manager.process_double_click(1);
    assert_eq!(manager.curr_dir().path(), "/home/docs");
    assert!(manager.repopulate().is_empty());
    manager.change_dir_to_parent();
    manager.change_dir_to_parent();
    assert_eq!(manager.curr_dir().path(), "/");
    manager.change_dir_to_parent();
    assert_eq!(manager.curr_dir().path(), "/");
    manager.process_double_click(7);
    assert_eq!(manager.curr_dir().path(), "/");
}
