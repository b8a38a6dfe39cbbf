use graphql_context::{PathSegment, PathVisitor, QueryPathNode, QueryPathSegment};

fn name<'a>(parent: Option<&'a QueryPathNode<'a>>, name: &'a str) -> QueryPathNode<'a> {
    QueryPathNode { parent, segment: QueryPathSegment::Name(name) }
}

fn index<'a>(parent: &'a QueryPathNode<'a>, index: usize) -> QueryPathNode<'a> {
    QueryPathNode { parent: Some(parent), segment: QueryPathSegment::Index(index) }
}

#[test]
fn path_reads_from_the_root() {
    let root = name(None, "users");
    let item = index(&root, 12);
    let leaf = name(Some(&item), "name");
    assert_eq!(leaf.to_string(), "users.12.name");
    assert_eq!(leaf.to_string_vec(), vec!["users", "12", "name"]);
    assert_eq!(
        leaf.to_owned_path(),
        vec![
            PathSegment::Field("users".to_string()),
            PathSegment::Index(12),
            PathSegment::Field("name".to_string()),
        ]
    );
    assert_eq!(root.to_string(), "users");
}

#[test]
fn the_field_name_is_the_last_name_of_the_path() {
    let root = name(None, "grid");
    let row = index(&root, 0);
    let cell = index(&row, 1);
    let leaf = name(Some(&cell), "x");
    assert_eq!(root.field_name(), "grid");
    assert_eq!(cell.field_name(), "grid");
    assert_eq!(leaf.field_name(), "x");
}

#[test]
fn numbers_are_written_in_decimal() {
    let root = name(None, "r");
    for number in [0, 9, 10, 99, 100, 4096, usize::MAX] {
        assert_eq!(index(&root, number).to_string_vec()[1], format!("{}", number));
    }
}

#[test]
fn parents_are_met_from_the_inside_out() {
    let root = name(None, "a");
    let middle = index(&root, 4);
    let leaf = name(Some(&middle), "b");
    let mut parents = leaf.parents();
    assert_eq!(parents.current().to_string(), "a.4.b");
    assert_eq!(parents.next().unwrap().to_string(), "a.4");
    let mut copy = parents.clone();
    assert_eq!(parents.next().unwrap().to_string(), "a");
    assert!(parents.next().is_none());
    assert!(parents.next().is_none());
    assert_eq!(parents.current().to_string(), "a");
    assert_eq!(copy.next().unwrap().to_string(), "a");
}

/// Takes names until it is shown an index.
struct Names(Vec<String>);

impl<'a> PathVisitor<'a> for Names {
    type Break = usize;

    fn visit(&mut self, segment: &QueryPathSegment<'a>) -> Result<(), usize> {
        match segment {
            QueryPathSegment::Name(name) => {
                self.0.push(name.to_string());
                Ok(())
            }
            QueryPathSegment::Index(index) => Err(*index),
        }
    }
}

#[test]
fn a_visitor_sees_the_path_up_to_where_it_stops() {
    let a = name(None, "a");
    let b = name(Some(&a), "b");
    let third = index(&b, 3);
    let leaf = name(Some(&third), "c");
    let mut names = Names(vec![]);
    assert_eq!(leaf.try_for_each(&mut names), Err(3));
    assert_eq!(names.0, vec!["a", "b"]);
    let mut names = Names(vec![]);
    assert_eq!(b.try_for_each(&mut names), Ok(()));
    assert_eq!(names.0, vec!["a", "b"]);
}
