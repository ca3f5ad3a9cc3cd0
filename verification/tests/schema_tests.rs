use infinite_auction::schema::{
    SchemaCapacity, SchemaColumn, SchemaConstraint, SchemaForeignKey, SchemaKey, SchemaKeyDef,
    SchemaLiteral, SchemaTable,
};
use infinite_auction::{check_schema, hash_schema, migrate_schema, ACCEPTED_SCHEMA_HASH};

fn bytes(s: &str) -> Vec<u8> {
    s.as_bytes().to_vec()
}

fn one_table() -> SchemaTable {
    SchemaTable {
        complete_name: bytes("public.bids"),
        name: bytes("bids"),
        columns: vec![
            SchemaColumn {
                name: bytes("rate"),
                sql_type: bytes("bigint"),
                capacity: None,
                constraints: vec![SchemaConstraint::NotNull],
            },
            SchemaColumn {
                name: bytes("id"),
                sql_type: bytes("int"),
                capacity: None,
                constraints: vec![
                    SchemaConstraint::AutoIncrement,
                    SchemaConstraint::NotNull,
                    SchemaConstraint::DefaultValue(SchemaLiteral::Integer(7)),
                ],
            },
        ],
        is_view: false,
        keys: vec![SchemaKey::Primary(SchemaKeyDef {
            name: Some(bytes("bids_pkey")),
            columns: vec![bytes("id")],
        })],
    }
}

#[test]
fn empty_schema_digest_is_the_accepted_one() {
    // An empty store contributes no bytes, so its digest is the digest of
    // the empty stream: exactly the known-good value that is accepted.
    let tables: Vec<SchemaTable> = vec![];
    assert_eq!(hash_schema(&tables), ACCEPTED_SCHEMA_HASH);
    assert!(check_schema(&tables).is_ok());
}

#[test]
fn nonempty_schema_digest_differs() {
    // The digest reads the encoded structure: a store with a table in it
    // cannot digest to the empty store's value.
    let tables = vec![one_table()];
    assert_ne!(hash_schema(&tables), ACCEPTED_SCHEMA_HASH);
    assert!(check_schema(&tables).is_err());
}

#[test]
fn digest_ignores_table_order() {
    // Canonicalisation: the digest sorts tables by qualified name, so the
    // order they arrive in does not matter.
    let a = SchemaTable { complete_name: bytes("public.a"), ..one_table() };
    let b = SchemaTable { complete_name: bytes("public.b"), name: bytes("zz"), ..one_table() };
    let fwd = vec![clone_table(&a), clone_table(&b)];
    let rev = vec![clone_table(&b), clone_table(&a)];
    assert_eq!(hash_schema(&fwd), hash_schema(&rev));
}

#[test]
fn digest_reads_the_structure() {
    // Two stores that differ only inside a column digest differently.
    let t1 = one_table();
    let mut t2 = one_table();
    t2.columns[0].sql_type = bytes("text");
    assert_ne!(hash_schema(&vec![t1]), hash_schema(&vec![t2]));
}

#[test]
fn migrate_schema_accepts_only_the_known_hash() {
    assert!(migrate_schema(ACCEPTED_SCHEMA_HASH).is_ok());
    assert!(migrate_schema(ACCEPTED_SCHEMA_HASH ^ 1).is_err());
    assert!(migrate_schema(0).is_err());
}

fn clone_table(t: &SchemaTable) -> SchemaTable {
    SchemaTable {
        complete_name: t.complete_name.clone(),
        name: t.name.clone(),
        columns: t
            .columns
            .iter()
            .map(|c| SchemaColumn {
                name: c.name.clone(),
                sql_type: c.sql_type.clone(),
                capacity: clone_capacity(&c.capacity),
                constraints: c.constraints.iter().map(clone_constraint).collect(),
            })
            .collect(),
        is_view: t.is_view,
        keys: t.keys.iter().map(clone_key).collect(),
    }
}

fn clone_capacity(c: &Option<SchemaCapacity>) -> Option<SchemaCapacity> {
    match c {
        None => None,
        Some(SchemaCapacity::Limit(x)) => Some(SchemaCapacity::Limit(*x)),
        Some(SchemaCapacity::Range(x, y)) => Some(SchemaCapacity::Range(*x, *y)),
    }
}

fn clone_literal(l: &SchemaLiteral) -> SchemaLiteral {
    match l {
        SchemaLiteral::Bool(b) => SchemaLiteral::Bool(*b),
        SchemaLiteral::Null => SchemaLiteral::Null,
        SchemaLiteral::Integer(x) => SchemaLiteral::Integer(*x),
        SchemaLiteral::Double(x) => SchemaLiteral::Double(*x),
        SchemaLiteral::UuidGenerateV4 => SchemaLiteral::UuidGenerateV4,
        SchemaLiteral::Uuid(v) => SchemaLiteral::Uuid(v.clone()),
        SchemaLiteral::Text(v) => SchemaLiteral::Text(v.clone()),
        SchemaLiteral::Blob(v) => SchemaLiteral::Blob(v.clone()),
        SchemaLiteral::CurrentTime => SchemaLiteral::CurrentTime,
        SchemaLiteral::CurrentDate => SchemaLiteral::CurrentDate,
        SchemaLiteral::CurrentTimestamp => SchemaLiteral::CurrentTimestamp,
        SchemaLiteral::ArrayInt(v) => SchemaLiteral::ArrayInt(v.clone()),
        SchemaLiteral::ArrayFloat(v) => SchemaLiteral::ArrayFloat(v.clone()),
        SchemaLiteral::ArrayText(v) => SchemaLiteral::ArrayText(v.clone()),
    }
}

fn clone_constraint(c: &SchemaConstraint) -> SchemaConstraint {
    match c {
        SchemaConstraint::NotNull => SchemaConstraint::NotNull,
        SchemaConstraint::DefaultValue(l) => SchemaConstraint::DefaultValue(clone_literal(l)),
        SchemaConstraint::AutoIncrement => SchemaConstraint::AutoIncrement,
    }
}

fn clone_key(k: &SchemaKey) -> SchemaKey {
    match k {
        SchemaKey::Primary(d) => SchemaKey::Primary(clone_key_def(d)),
        SchemaKey::Unique(d) => SchemaKey::Unique(clone_key_def(d)),
        SchemaKey::Plain(d) => SchemaKey::Plain(clone_key_def(d)),
        SchemaKey::Foreign(f) => SchemaKey::Foreign(SchemaForeignKey {
            name: f.name.clone(),
            columns: f.columns.clone(),
            foreign_table: f.foreign_table.clone(),
            referred_columns: f.referred_columns.clone(),
        }),
    }
}

fn clone_key_def(d: &SchemaKeyDef) -> SchemaKeyDef {
    SchemaKeyDef { name: d.name.clone(), columns: d.columns.clone() }
}
