//! Names and paths of image layer files.
use vstd::prelude::*;

use crate::big_endian::{be_bytes, lemma_be_bytes_len, lemma_spans, lemma_value_of_bytes, put_be};
use crate::ids::{Lsn, TenantId, TimelineId};
use crate::key::{lemma_key_bytes_len, law_key_of_its_bytes, KeyRange};
use crate::text::{
    hex_upper, is_alphanumeric, lemma_hex_upper_injective, put_hex_upper, random_alphanumeric,
};

verus! {

/// How many random characters the name of a temporary file has.
pub const TEMP_RANDOM_LEN: usize = 8;

/// Settings of the page server that layers need.
#[derive(Debug)]
pub struct PageServerConf {
    /// The directory that holds the files of all tenants.
    pub workdir: String,
}

/// Where a layer's file is found: at a given path, or under the directory of its
/// timeline.
#[derive(Debug)]
pub enum PathOrConf {
    Path(String),
    Conf(&'static PageServerConf),
}

/// A path, and the name of something below it. An empty path names the directory
/// that names are relative to.
pub open spec fn path_join(base: Seq<char>, name: Seq<char>) -> Seq<char> {
    if base.len() == 0 {
        name
    } else if base.last() == '/' {
        base + name
    } else {
        base + "/"@ + name
    }
}

/// Appends the name of something below it to a path.
fn push_name(path: &mut String, name: &str)
    ensures
        final(path)@ == path_join(old(path)@, name@),
{
    let len: usize = path.as_str().unicode_len();
    if len > 0 && path.as_str().get_char(len - 1) != '/' {
        path.append("/");
    }
    path.append(name);
    assert(path@ =~= path_join(old(path)@, name@));
}

impl PageServerConf {
    /// The directory of a timeline's files.
    pub open spec fn spec_timeline_path(
        self,
        tenant_id: TenantId,
        timeline_id: TimelineId,
    ) -> Seq<char> {
        path_join(
            path_join(
                path_join(path_join(self.workdir@, "tenants"@), tenant_id.text()),
                "timelines"@,
            ),
            timeline_id.text(),
        )
    }

    /// The directory of a timeline's files.
    pub fn timeline_path(&self, tenant_id: &TenantId, timeline_id: &TimelineId) -> (path: String)
        ensures
            path@ == self.spec_timeline_path(*tenant_id, *timeline_id),
    {
        let mut path: String = self.workdir.clone();
        push_name(&mut path, "tenants");
        push_name(&mut path, tenant_id.to_text().as_str());
        push_name(&mut path, "timelines");
        push_name(&mut path, timeline_id.to_text().as_str());
        path
    }
}

/// What the name of an image layer file says: the keys that the layer covers,
/// and the position in the log that it is an image of.
#[derive(Clone, Copy, Debug, PartialEq, Eq, Structural)]
pub struct ImageFileName {
    pub key_range: KeyRange,
    pub lsn: Lsn,
}

impl ImageFileName {
    /// The name: `<key start>-<key end>__<LSN>`, in hexadecimal.
    pub open spec fn name(self) -> Seq<char> {
        self.key_range.start.text() + "-"@ + self.key_range.end.text() + "__"@ + hex_upper(
            be_bytes(self.lsn.0 as nat, 8),
        )
    }

    /// The name of the file.
    pub fn file_name(&self) -> (name: String)
        ensures
            name@ == self.name(),
    {
        let mut name: String = String::new();
        self.key_range.start.put_text(&mut name);
        name.append("-");
        self.key_range.end.put_text(&mut name);
        name.append("__");
        let mut lsn: Vec<u8> = Vec::new();
        put_be(&mut lsn, self.lsn.0, 8);
        assert(lsn@ =~= be_bytes(self.lsn.0 as nat, 8));
        put_hex_upper(&mut name, lsn.as_slice());
        assert(name@ =~= self.name());
        name
    }

    /// The name of a temporary file, with the given random part.
    pub open spec fn temp_name(self, random: Seq<char>) -> Seq<char> {
        self.name() + "."@ + random + "."@ + "___temp"@
    }
}

/// The path of the file with the given name.
pub open spec fn spec_path_for(
    path_or_conf: PathOrConf,
    timeline_id: TimelineId,
    tenant_id: TenantId,
    fname: ImageFileName,
) -> Seq<char> {
    match path_or_conf {
        PathOrConf::Path(path) => path@,
        PathOrConf::Conf(conf) => path_join(
            conf.spec_timeline_path(tenant_id, timeline_id),
            fname.name(),
        ),
    }
}

/// The path of the temporary file with the given random part.
pub open spec fn spec_temp_path(
    conf: PageServerConf,
    timeline_id: TimelineId,
    tenant_id: TenantId,
    fname: ImageFileName,
    random: Seq<char>,
) -> Seq<char> {
    path_join(conf.spec_timeline_path(tenant_id, timeline_id), fname.temp_name(random))
}

/// Whether `random` can be the random part of the name of a temporary file.
pub open spec fn is_random_part(random: Seq<char>) -> bool {
    random.len() == TEMP_RANDOM_LEN && forall|i: int|
        0 <= i < random.len() ==> is_alphanumeric(#[trigger] random[i])
}

/// Whether `path` is the path of a temporary file, with any random part.
pub open spec fn is_temp_path(
    path: Seq<char>,
    conf: PageServerConf,
    timeline_id: TimelineId,
    tenant_id: TenantId,
    fname: ImageFileName,
) -> bool {
    exists|random: Seq<char>|
        is_random_part(random) && path == #[trigger] spec_temp_path(
            conf,
            timeline_id,
            tenant_id,
            fname,
            random,
        )
}

/// The path of the file with the given name: the given path, or one under the
/// directory of the timeline.
pub fn path_for(
    path_or_conf: &PathOrConf,
    timeline_id: TimelineId,
    tenant_id: TenantId,
    fname: &ImageFileName,
) -> (path: String)
    ensures
        path@ == spec_path_for(*path_or_conf, timeline_id, tenant_id, *fname),
{
    match path_or_conf {
        PathOrConf::Path(path) => path.clone(),
        PathOrConf::Conf(conf) => {
            let mut path: String = conf.timeline_path(&tenant_id, &timeline_id);
            push_name(&mut path, fname.file_name().as_str());
            path
        },
    }
}

/// The path of a temporary file whose name has the given random part.
pub fn temp_path_with(
    conf: &PageServerConf,
    timeline_id: TimelineId,
    tenant_id: TenantId,
    fname: &ImageFileName,
    random: &str,
) -> (path: String)
    ensures
        path@ == spec_temp_path(*conf, timeline_id, tenant_id, *fname, random@),
{
    let mut name: String = fname.file_name();
    name.append(".");
    name.append(random);
    name.append(".");
    name.append("___temp");
    assert(name@ =~= fname.temp_name(random@));
    let mut path: String = conf.timeline_path(&tenant_id, &timeline_id);
    push_name(&mut path, name.as_str());
    path
}

/// A path for a temporary file. Its name has a random part.
pub fn temp_path_for(
    conf: &PageServerConf,
    timeline_id: TimelineId,
    tenant_id: TenantId,
    fname: &ImageFileName,
) -> (path: String)
    ensures
        is_temp_path(path@, *conf, timeline_id, tenant_id, *fname),
{
    let random: String = random_alphanumeric(TEMP_RANDOM_LEN);
    assert(is_random_part(random@));
    temp_path_with(conf, timeline_id, tenant_id, fname, random.as_str())
}

/// How long the name of an image layer file is, and where its parts lie.
pub proof fn lemma_name_parts(fname: ImageFileName)
    ensures
        fname.name().len() == 91,
        fname.name()[36] == '-',
        fname.name()[73] == '_',
        fname.name()[74] == '_',
        fname.name().subrange(0, 36) == fname.key_range.start.text(),
        fname.name().subrange(37, 73) == fname.key_range.end.text(),
        fname.name().subrange(75, 91) == hex_upper(be_bytes(fname.lsn.0 as nat, 8)),
{
    lemma_key_bytes_len(fname.key_range.start);
    lemma_key_bytes_len(fname.key_range.end);
    lemma_be_bytes_len(fname.lsn.0 as nat, 8);
    reveal_strlit("-");
    reveal_strlit("__");
    let name = fname.name();
    assert(name.subrange(0, 36) =~= fname.key_range.start.text());
    assert(name.subrange(37, 73) =~= fname.key_range.end.text());
    assert(name.subrange(75, 91) =~= hex_upper(be_bytes(fname.lsn.0 as nat, 8)));
}

/// Files of one name cover the same keys at the same position: no two layers of
/// a timeline share a file.
pub proof fn law_file_name_unique(left: ImageFileName, right: ImageFileName)
    requires
        left.name() == right.name(),
    ensures
        left == right,
{
    lemma_name_parts(left);
    lemma_name_parts(right);
    lemma_spans();
    lemma_hex_upper_injective(left.key_range.start.bytes(), right.key_range.start.bytes());
    lemma_hex_upper_injective(left.key_range.end.bytes(), right.key_range.end.bytes());
    lemma_hex_upper_injective(
        be_bytes(left.lsn.0 as nat, 8),
        be_bytes(right.lsn.0 as nat, 8),
    );
    law_key_of_its_bytes(left.key_range.start);
    law_key_of_its_bytes(right.key_range.start);
    law_key_of_its_bytes(left.key_range.end);
    law_key_of_its_bytes(right.key_range.end);
    lemma_value_of_bytes(left.lsn.0 as nat, 8);
    lemma_value_of_bytes(right.lsn.0 as nat, 8);
}

/// A temporary file is never the final file of a layer, of this layer or
/// another, in the same directory.
pub proof fn law_temp_file_apart(
    conf: &'static PageServerConf,
    timeline_id: TimelineId,
    tenant_id: TenantId,
    temp: ImageFileName,
    random: Seq<char>,
    other: ImageFileName,
)
    requires
        is_random_part(random),
    ensures
        spec_temp_path(*conf, timeline_id, tenant_id, temp, random) != spec_path_for(
            PathOrConf::Conf(conf),
            timeline_id,
            tenant_id,
            other,
        ),
{
    lemma_name_parts(temp);
    lemma_name_parts(other);
    reveal_strlit(".");
    reveal_strlit("___temp");
    let dir = conf.spec_timeline_path(tenant_id, timeline_id);
    let temp_path = path_join(dir, temp.temp_name(random));
    let final_path = path_join(dir, other.name());
    assert(temp_path.len() > final_path.len());
}

} // verus!
