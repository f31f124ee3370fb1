//! The configuration of a node, and how an update changes it.

use vstd::prelude::*;
use crate::error::Error;
use crate::text::to_chars;

verus! {

/// A property of the node configuration that can be deleted.
#[allow(non_camel_case_types)]
#[derive(Clone, Copy, Debug, PartialEq, Eq, Structural)]
pub enum DeletableProperty {
    /// Delete the acme property.
    acme,
    /// Delete the acmedomain0 property.
    acmedomain0,
    /// Delete the acmedomain1 property.
    acmedomain1,
    /// Delete the acmedomain2 property.
    acmedomain2,
    /// Delete the acmedomain3 property.
    acmedomain3,
    /// Delete the acmedomain4 property.
    acmedomain4,
    /// Delete the http-proxy property.
    http_proxy,
}

/// The configuration of a node.
#[derive(Debug)]
pub struct NodeConfig {
    pub acme: Option<String>,
    pub acmedomain0: Option<String>,
    pub acmedomain1: Option<String>,
    pub acmedomain2: Option<String>,
    pub acmedomain3: Option<String>,
    pub acmedomain4: Option<String>,
    pub http_proxy: Option<String>,
}

/// The properties that an update of the node configuration sets.
#[derive(Debug)]
pub struct NodeConfigUpdater {
    pub acme: Option<String>,
    pub acmedomain0: Option<String>,
    pub acmedomain1: Option<String>,
    pub acmedomain2: Option<String>,
    pub acmedomain3: Option<String>,
    pub acmedomain4: Option<String>,
    pub http_proxy: Option<String>,
}

/// The properties of a node, as contracts see them.
pub struct NodeConfigView {
    pub acme: Option<Seq<char>>,
    pub acmedomain0: Option<Seq<char>>,
    pub acmedomain1: Option<Seq<char>>,
    pub acmedomain2: Option<Seq<char>>,
    pub acmedomain3: Option<Seq<char>>,
    pub acmedomain4: Option<Seq<char>>,
    pub http_proxy: Option<Seq<char>>,
}

/// The view of a property.
pub open spec fn property_view(p: Option<String>) -> Option<Seq<char>> {
    match p {
        Some(s) => Some(s@),
        None => None,
    }
}

impl View for NodeConfig {
    type V = NodeConfigView;

    open spec fn view(&self) -> NodeConfigView {
        NodeConfigView {
            acme: property_view(self.acme),
            acmedomain0: property_view(self.acmedomain0),
            acmedomain1: property_view(self.acmedomain1),
            acmedomain2: property_view(self.acmedomain2),
            acmedomain3: property_view(self.acmedomain3),
            acmedomain4: property_view(self.acmedomain4),
            http_proxy: property_view(self.http_proxy),
        }
    }
}

impl View for NodeConfigUpdater {
    type V = NodeConfigView;

    open spec fn view(&self) -> NodeConfigView {
        NodeConfigView {
            acme: property_view(self.acme),
            acmedomain0: property_view(self.acmedomain0),
            acmedomain1: property_view(self.acmedomain1),
            acmedomain2: property_view(self.acmedomain2),
            acmedomain3: property_view(self.acmedomain3),
            acmedomain4: property_view(self.acmedomain4),
            http_proxy: property_view(self.http_proxy),
        }
    }
}

/// A property after an update: what the update sets, else nothing if the
/// property is deleted, else what it was.
pub open spec fn updated_property(
    before: Option<Seq<char>>,
    update: Option<Seq<char>>,
    deleted: bool,
) -> Option<Seq<char>> {
    match update {
        Some(u) => Some(u),
        None => if deleted {
            None
        } else {
            before
        },
    }
}

/// The configuration after an update.
pub open spec fn updated_config(
    config: NodeConfigView,
    update: NodeConfigView,
    delete: Seq<DeletableProperty>,
) -> NodeConfigView {
    NodeConfigView {
        acme: updated_property(config.acme, update.acme, delete.contains(DeletableProperty::acme)),
        acmedomain0: updated_property(
            config.acmedomain0,
            update.acmedomain0,
            delete.contains(DeletableProperty::acmedomain0),
        ),
        acmedomain1: updated_property(
            config.acmedomain1,
            update.acmedomain1,
            delete.contains(DeletableProperty::acmedomain1),
        ),
        acmedomain2: updated_property(
            config.acmedomain2,
            update.acmedomain2,
            delete.contains(DeletableProperty::acmedomain2),
        ),
        acmedomain3: updated_property(
            config.acmedomain3,
            update.acmedomain3,
            delete.contains(DeletableProperty::acmedomain3),
        ),
        acmedomain4: updated_property(
            config.acmedomain4,
            update.acmedomain4,
            delete.contains(DeletableProperty::acmedomain4),
        ),
        http_proxy: updated_property(
            config.http_proxy,
            update.http_proxy,
            delete.contains(DeletableProperty::http_proxy),
        ),
    }
}

/// The value of a hexadecimal digit, of either case.
pub open spec fn hex_value(c: char) -> Option<int> {
    let u = c as u32;
    if 48 <= u <= 57 {
        Some(u - 48)
    } else if 97 <= u <= 102 {
        Some(u - 87)
    } else if 65 <= u <= 70 {
        Some(u - 55)
    } else {
        None
    }
}

/// The bytes that a hexadecimal text stands for: two digits a byte, the
/// high half first.
pub open spec fn parse_hex_spec(s: Seq<char>) -> Option<Seq<u8>>
    decreases s.len(),
{
    if s.len() == 0 {
        Some(Seq::empty())
    } else if s.len() == 1 {
        None
    } else {
        match (
            parse_hex_spec(s.take(s.len() - 2)),
            hex_value(s[s.len() - 2]),
            hex_value(s[s.len() - 1]),
        ) {
            (Some(init), Some(hi), Some(lo)) => Some(init.push((hi * 16 + lo) as u8)),
            _ => None,
        }
    }
}

/// The digest that a text stands for: 64 hexadecimal digits.
pub open spec fn hex_to_digest_spec(s: Seq<char>) -> Option<Seq<u8>> {
    if s.len() == 64 {
        parse_hex_spec(s)
    } else {
        None
    }
}

fn hex_digit_value(c: char) -> (r: Option<u8>)
    ensures
        match hex_value(c) {
            Some(v) => r == Some(v as u8) && 0 <= v < 16,
            None => r is None,
        },
{
    let u: u32 = c as u32;
    if 48 <= u && u <= 57 {
        Some((u - 48) as u8)
    } else if 97 <= u && u <= 102 {
        Some((u - 87) as u8)
    } else if 65 <= u && u <= 70 {
        Some((u - 55) as u8)
    } else {
        None
    }
}

/// Once a part of a text is no hexadecimal text, neither is the whole.
pub proof fn lemma_parse_hex_fails(s: Seq<char>, k: int)
    requires
        0 <= k <= s.len(),
        k % 2 == 0,
        s.len() % 2 == 0,
        parse_hex_spec(s.take(k)) is None,
    ensures
        parse_hex_spec(s) is None,
    decreases s.len() - k,
{
    if k < s.len() {
        let t = s.take(k + 2);
        assert(t.take(t.len() - 2) =~= s.take(k));
        lemma_parse_hex_fails(s, k + 2);
    } else {
        assert(s.take(k) =~= s);
    }
}

/// Reads a digest from its hexadecimal text. Fails with `InvalidInput`
/// unless the text has 64 hexadecimal digits.
pub fn hex_to_digest(text: &str) -> (r: Result<Vec<u8>, Error>)
    ensures
        match hex_to_digest_spec(text@) {
            Some(d) => r is Ok && r->Ok_0@ == d && d.len() == 32,
            None => r matches Err(e) && e == Error::InvalidInput,
        },
{
    let s = to_chars(text);
    if s.len() != 64 {
        return Err(Error::InvalidInput);
    }
    let mut digest: Vec<u8> = Vec::new();
    let mut i: usize = 0;
    assert(s@.take(0) =~= Seq::<char>::empty());
    while i < 64
        invariant
            i <= 64,
            i % 2 == 0,
            s.len() == 64,
            s@ == text@,
            digest.len() == i / 2,
            parse_hex_spec(s@.take(i as int)) == Some(digest@),
        decreases 64 - i,
    {
        proof {
            let t = s@.take(i + 2);
            assert(t.take(t.len() - 2) =~= s@.take(i as int));
            assert(t[t.len() - 2] == s@[i as int]);
            assert(t[t.len() - 1] == s@[i + 1]);
        }
        let hi = match hex_digit_value(s[i]) {
            Some(v) => v,
            None => {
                proof {
                    assert(parse_hex_spec(s@.take(i + 2)) is None);
                    lemma_parse_hex_fails(s@, i + 2);
                }
                return Err(Error::InvalidInput);
            },
        };
        let lo = match hex_digit_value(s[i + 1]) {
            Some(v) => v,
            None => {
                proof {
                    assert(parse_hex_spec(s@.take(i + 2)) is None);
                    lemma_parse_hex_fails(s@, i + 2);
                }
                return Err(Error::InvalidInput);
            },
        };
        digest.push(hi * 16 + lo);
        i += 2;
    }
    assert(s@.take(64) =~= s@);
    Ok(digest)
}

/// Whether the digest that a caller names lets an update go on: no digest
/// and an empty one do; else the digest has to be that of the file as it
/// is now.
pub open spec fn digest_check_spec(digest: Option<Seq<char>>, expected: Seq<u8>) -> Result<
    (),
    Error,
> {
    match digest {
        None => Ok(()),
        Some(text) => if text.len() == 0 {
            Ok(())
        } else {
            match hex_to_digest_spec(text) {
                None => Err(Error::InvalidInput),
                Some(d) => if d == expected {
                    Ok(())
                } else {
                    Err(Error::ConfigModified)
                },
            }
        },
    }
}

/// Fails with `ConfigModified` unless the two digests are the same.
pub fn detect_modified_configuration_file(digest: &Vec<u8>, expected: &[u8; 32]) -> (r: Result<
    (),
    Error,
>)
    ensures
        r == if digest@ == expected@ {
            Ok::<(), Error>(())
        } else {
            Err::<(), Error>(Error::ConfigModified)
        },
{
    if digest.len() != 32 {
        return Err(Error::ConfigModified);
    }
    let mut i: usize = 0;
    while i < 32
        invariant
            i <= 32,
            digest.len() == 32,
            forall|k: int| 0 <= k < i ==> digest@[k] == expected@[k],
        decreases 32 - i,
    {
        if digest[i] != expected[i] {
            return Err(Error::ConfigModified);
        }
        i += 1;
    }
    assert(digest@ =~= expected@);
    Ok(())
}

/// Whether a list of properties holds the property.
fn deletes(delete: &Vec<DeletableProperty>, property: DeletableProperty) -> (r: bool)
    ensures
        r == delete@.contains(property),
{
    let mut i: usize = 0;
    while i < delete.len()
        invariant
            i <= delete.len(),
            forall|k: int| 0 <= k < i ==> delete@[k] != property,
        decreases delete.len() - i,
    {
        if delete[i] == property {
            return true;
        }
        i += 1;
    }
    false
}

fn update_property(before: &mut Option<String>, update: Option<String>, deleted: bool)
    ensures
        property_view(*final(before)) == updated_property(
            property_view(*old(before)),
            property_view(update),
            deleted,
        ),
{
    if deleted {
        *before = None;
    }
    if update.is_some() {
        *before = update;
    }
}

/// Updates the configuration of a node: first the properties to delete
/// are deleted, then the properties that the update sets are set.
///
/// `digest` is the digest of the configuration file as the caller saw it,
/// and `expected_digest` that of the file as it is now. Fails, and leaves
/// the configuration as it is, with `InvalidInput` where `digest` is not a
/// digest and with `ConfigModified` where it is another one.
pub fn update_node_config(
    config: &mut NodeConfig,
    update: NodeConfigUpdater,
    delete: Option<Vec<DeletableProperty>>,
    digest: Option<&str>,
    expected_digest: &[u8; 32],
) -> (r: Result<(), Error>)
    ensures
        r == digest_check_spec(
            match digest {
                Some(d) => Some(d@),
                None => None,
            },
            expected_digest@,
        ),
        r is Err ==> *final(config) == *old(config),
        r is Ok ==> final(config)@ == updated_config(
            old(config)@,
            update@,
            match delete {
                Some(d) => d@,
                None => Seq::empty(),
            },
        ),
{
    if let Some(digest) = digest {
        if !to_chars(digest).is_empty() {
            let digest = hex_to_digest(digest)?;
            detect_modified_configuration_file(&digest, expected_digest)?;
        }
    }
    let delete: Vec<DeletableProperty> = match delete {
        Some(d) => d,
        None => Vec::new(),
    };
    update_property(&mut config.acme, update.acme, deletes(&delete, DeletableProperty::acme));
    update_property(
        &mut config.acmedomain0,
        update.acmedomain0,
        deletes(&delete, DeletableProperty::acmedomain0),
    );
    update_property(
        &mut config.acmedomain1,
        update.acmedomain1,
        deletes(&delete, DeletableProperty::acmedomain1),
    );
    update_property(
        &mut config.acmedomain2,
        update.acmedomain2,
        deletes(&delete, DeletableProperty::acmedomain2),
    );
    update_property(
        &mut config.acmedomain3,
        update.acmedomain3,
        deletes(&delete, DeletableProperty::acmedomain3),
    );
    update_property(
        &mut config.acmedomain4,
        update.acmedomain4,
        deletes(&delete, DeletableProperty::acmedomain4),
    );
    update_property(
        &mut config.http_proxy,
        update.http_proxy,
        deletes(&delete, DeletableProperty::http_proxy),
    );
    Ok(())
}

} // verus!
