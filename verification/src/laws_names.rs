//! What the names, paths and lines are that calls give.
use vstd::prelude::*;

use crate::big_endian::{
    be_bytes, be_value, lemma_be_bytes_len, lemma_spans, lemma_value_of_bytes,
};
use crate::btree_node::OnDiskNode;
use crate::ids::{Lsn, TenantId, TimelineId};
use crate::index_walk::{entry_line, show_entry, show_node};
use crate::key::{lemma_key_bytes_len, lemma_key_number_injective, Key, KEY_SIZE};
use crate::layer_name::{
    is_random_part, is_temp_path, lemma_name_parts, path_for, path_join, spec_path_for,
    spec_temp_path, temp_path_for, temp_path_with, ImageFileName, PageServerConf, PathOrConf,
};
use crate::text::{
    decimal, digits, hex_lower, hex_upper, is_alphanumeric, is_capital_digit, is_hex_of,
    is_numeral, is_small_digit, law_digits_read_back, law_hex_number, law_hex_read_back,
    law_hex_unique, number_read, put_decimal, put_hex_upper, put_number,
};

verus! {

/// Whether a text is a key: 36 capital hexadecimal digits that stand for its
/// number.
pub open spec fn is_key_text(text: Seq<char>, key: Key) -> bool {
    &&& text.len() == 36
    &&& forall|i: int| 0 <= i < text.len() ==> is_capital_digit(#[trigger] text[i])
    &&& number_read(text, 16) == key.number()
}

/// Whether a text is a log sequence number: its high and its low half in
/// hexadecimal, with a slash between them.
pub open spec fn is_lsn_text(text: Seq<char>, lsn: Lsn) -> bool {
    exists|high: Seq<char>, low: Seq<char>|
        #![trigger high + seq!['/'] + low]
        {
            &&& text == high + seq!['/'] + low
            &&& is_numeral(high, 16, (lsn.0 / 0x1_0000_0000) as nat)
            &&& is_numeral(low, 16, (lsn.0 % 0x1_0000_0000) as nat)
        }
}

/// Whether a text is the name of an image layer file. The first key ends at the
/// only dash, at place 36; the second ends at the only underscores, at places 73
/// and 74; behind these stands the position in the log, in 16 digits.
pub open spec fn is_file_name(name: Seq<char>, fname: ImageFileName) -> bool {
    &&& name.len() == 91
    &&& name[36] == '-'
    &&& name[73] == '_'
    &&& name[74] == '_'
    &&& forall|i: int|
        0 <= i < name.len() && i != 36 && i != 73 && i != 74 ==> is_capital_digit(
            #[trigger] name[i],
        )
    &&& is_key_text(name.subrange(0, 36), fname.key_range.start)
    &&& is_key_text(name.subrange(37, 73), fname.key_range.end)
    &&& number_read(name.subrange(75, 91), 16) == fname.lsn.0
}

/// A key is written so that it can be read again.
pub proof fn law_key_text(key: Key)
    ensures
        is_key_text(key.text(), key),
{
    lemma_key_bytes_len(key);
    law_hex_number(key.bytes());
}

/// A log sequence number is written so that it can be read again.
pub proof fn law_lsn_text(lsn: Lsn)
    ensures
        is_lsn_text(lsn.text(), lsn),
{
    reveal_strlit("/");
    let high = digits((lsn.0 / 0x1_0000_0000) as nat, 16);
    let low = digits((lsn.0 % 0x1_0000_0000) as nat, 16);
    law_digits_read_back((lsn.0 / 0x1_0000_0000) as nat, 16);
    law_digits_read_back((lsn.0 % 0x1_0000_0000) as nat, 16);
    assert(lsn.text() =~= high + seq!['/'] + low);
}

/// The name of a file tells what it is the name of: `<key start>-<key end>__<LSN>`.
pub proof fn law_name(fname: ImageFileName)
    ensures
        is_file_name(fname.name(), fname),
{
    let name = fname.name();
    let lsn = be_bytes(fname.lsn.0 as nat, 8);
    lemma_name_parts(fname);
    law_key_text(fname.key_range.start);
    law_key_text(fname.key_range.end);
    lemma_be_bytes_len(fname.lsn.0 as nat, 8);
    lemma_spans();
    lemma_value_of_bytes(fname.lsn.0 as nat, 8);
    law_hex_number(lsn);
    assert forall|i: int|
        0 <= i < name.len() && i != 36 && i != 73 && i != 74 implies is_capital_digit(
        #[trigger] name[i],
    ) by {
        if i < 36 {
            assert(name[i] == name.subrange(0, 36)[i]);
        } else if i < 73 {
            assert(name[i] == name.subrange(37, 73)[i - 37]);
        } else {
            assert(name[i] == name.subrange(75, 91)[i - 75]);
        }
    }
}

/// A text is the name of at most one layer's file.
pub proof fn law_name_tells(name: Seq<char>, left: ImageFileName, right: ImageFileName)
    requires
        is_file_name(name, left),
        is_file_name(name, right),
    ensures
        left == right,
{
    lemma_key_number_injective(left.key_range.start, right.key_range.start);
    lemma_key_number_injective(left.key_range.end, right.key_range.end);
}

/// A layer's file has one name.
pub proof fn law_name_unique(name: Seq<char>, fname: ImageFileName)
    requires
        is_file_name(name, fname),
    ensures
        name == fname.name(),
{
    let own = fname.name();
    law_name(fname);
    lemma_numeral_unique(name.subrange(0, 36), own.subrange(0, 36));
    lemma_numeral_unique(name.subrange(37, 73), own.subrange(37, 73));
    lemma_numeral_unique(name.subrange(75, 91), own.subrange(75, 91));
    assert forall|i: int| 0 <= i < 91 implies name[i] == own[i] by {
        if i < 36 {
            assert(name[i] == name.subrange(0, 36)[i] && own[i] == own.subrange(0, 36)[i]);
        } else if 37 <= i < 73 {
            assert(name[i] == name.subrange(37, 73)[i - 37] && own[i] == own.subrange(37, 73)[i
                - 37]);
        } else if 75 <= i {
            assert(name[i] == name.subrange(75, 91)[i - 75] && own[i] == own.subrange(75, 91)[i
                - 75]);
        }
    }
    assert(name =~= own);
}

/// Capital digits of one length that stand for one number are the same.
proof fn lemma_numeral_unique(left: Seq<char>, right: Seq<char>)
    requires
        left.len() == right.len(),
        forall|i: int| 0 <= i < left.len() ==> is_capital_digit(#[trigger] left[i]),
        forall|i: int| 0 <= i < right.len() ==> is_capital_digit(#[trigger] right[i]),
        number_read(left, 16) == number_read(right, 16),
    ensures
        left == right,
    decreases left.len(),
{
    if left.len() > 0 {
        let last = left.len() - 1;
        assert(is_capital_digit(left[last]) && is_capital_digit(right[last]));
        lemma_numeral_unique(left.drop_last(), right.drop_last());
        assert(left =~= left.drop_last().push(left[last]));
        assert(right =~= right.drop_last().push(right[last]));
    }
    assert(left =~= right);
}

/// `ImageFileName::file_name` gives the name of the file.
pub proof fn law_file_name(fname: ImageFileName, name: String)
    requires
        call_ensures(ImageFileName::file_name, (&fname,), name),
    ensures
        is_file_name(name@, fname),
{
    law_name(fname);
}

/// The text of an identifier is made of its bytes.
pub proof fn law_id_texts(
    tenant_id: TenantId,
    tenant: String,
    timeline_id: TimelineId,
    timeline: String,
)
    requires
        call_ensures(TenantId::to_text, (&tenant_id,), tenant),
        call_ensures(TimelineId::to_text, (&timeline_id,), timeline),
    ensures
        is_hex_of(tenant@, tenant_id.0@),
        is_hex_of(timeline@, timeline_id.0@),
{
    law_hex_read_back(tenant_id.0@);
    law_hex_read_back(timeline_id.0@);
}

/// A directory, ready for the name of something in it to follow.
pub open spec fn inside(dir: Seq<char>) -> Seq<char> {
    if dir.len() == 0 || dir.last() == '/' {
        dir
    } else {
        dir.push('/')
    }
}

/// Whether a path is the directory of a timeline: `tenants/<tenant>/timelines/`
/// and the timeline, in the directory that holds all files.
pub open spec fn is_timeline_dir(
    dir: Seq<char>,
    workdir: Seq<char>,
    tenant_id: TenantId,
    timeline_id: TimelineId,
) -> bool {
    exists|tenant: Seq<char>, timeline: Seq<char>|
        #![trigger is_hex_of(tenant, tenant_id.0@), is_hex_of(timeline, timeline_id.0@)]
        {
            &&& is_hex_of(tenant, tenant_id.0@)
            &&& is_hex_of(timeline, timeline_id.0@)
            &&& dir == inside(workdir) + seq!['t', 'e', 'n', 'a', 'n', 't', 's', '/'] + tenant
                + seq!['/', 't', 'i', 'm', 'e', 'l', 'i', 'n', 'e', 's', '/'] + timeline
        }
}

/// Whether a path is that of something with the given name in the directory of a
/// timeline.
pub open spec fn is_in_timeline(
    path: Seq<char>,
    workdir: Seq<char>,
    tenant_id: TenantId,
    timeline_id: TimelineId,
    name: Seq<char>,
) -> bool {
    exists|dir: Seq<char>| #[trigger]
        is_timeline_dir(dir, workdir, tenant_id, timeline_id) && path == dir.push('/') + name
}

/// Joining puts a name into a directory.
proof fn lemma_join(dir: Seq<char>, name: Seq<char>)
    ensures
        path_join(dir, name) == inside(dir) + name,
{
    reveal_strlit("/");
    assert(path_join(dir, name) =~= inside(dir) + name);
}

/// The directories between the tenants and the timelines.
proof fn lemma_dir_names()
    ensures
        "tenants"@.len() > 0,
        "tenants"@.last() != '/',
        "tenants"@.push('/') == seq!['t', 'e', 'n', 'a', 'n', 't', 's', '/'],
        "timelines"@.len() > 0,
        "timelines"@.last() != '/',
        seq!['/'] + "timelines"@.push('/') == seq![
            '/',
            't',
            'i',
            'm',
            'e',
            'l',
            'i',
            'n',
            'e',
            's',
            '/',
        ],
{
    reveal_strlit("tenants");
    reveal_strlit("timelines");
    assert("tenants"@.push('/') =~= seq!['t', 'e', 'n', 'a', 'n', 't', 's', '/']);
    assert(seq!['/'] + "timelines"@.push('/') =~= seq![
        '/',
        't',
        'i',
        'm',
        'e',
        'l',
        'i',
        'n',
        'e',
        's',
        '/',
    ]);
}

/// What lies inside of the directory `name` in a directory.
proof fn lemma_inside(dir: Seq<char>, name: Seq<char>)
    requires
        name.len() > 0,
        name.last() != '/',
    ensures
        inside(dir + name) == dir + name.push('/'),
        (dir + name).len() > 0,
        (dir + name).last() != '/',
{
    assert((dir + name).last() == name.last());
    assert(inside(dir + name) =~= dir + name.push('/'));
}

/// The directory of a timeline lies where it is looked for.
proof fn lemma_timeline_dir(conf: PageServerConf, tenant_id: TenantId, timeline_id: TimelineId)
    ensures
        is_timeline_dir(
            conf.spec_timeline_path(tenant_id, timeline_id),
            conf.workdir@,
            tenant_id,
            timeline_id,
        ),
        conf.spec_timeline_path(tenant_id, timeline_id).len() > 0,
        conf.spec_timeline_path(tenant_id, timeline_id).last() != '/',
{
    let workdir = conf.workdir@;
    let tenant = hex_lower(tenant_id.0@);
    let timeline = hex_lower(timeline_id.0@);
    law_hex_read_back(tenant_id.0@);
    law_hex_read_back(timeline_id.0@);
    assert(is_small_digit(tenant[31]) && is_small_digit(timeline[31]));
    lemma_dir_names();
    let one = path_join(workdir, "tenants"@);
    let two = path_join(one, tenant);
    let three = path_join(two, "timelines"@);
    let four = path_join(three, timeline);
    lemma_join(workdir, "tenants"@);
    lemma_inside(inside(workdir), "tenants"@);
    let front = inside(workdir) + "tenants"@.push('/');
    lemma_join(one, tenant);
    lemma_inside(front, tenant);
    lemma_join(two, "timelines"@);
    lemma_inside(front + tenant.push('/'), "timelines"@);
    lemma_join(three, timeline);
    lemma_inside(front + tenant.push('/') + "timelines"@.push('/'), timeline);
    assert(front + tenant.push('/') + "timelines"@.push('/') + timeline =~= front + tenant + (seq![
        '/',
    ] + "timelines"@.push('/')) + timeline);
}

/// What is joined to the directory of a timeline is in it.
proof fn lemma_in_timeline(
    conf: PageServerConf,
    tenant_id: TenantId,
    timeline_id: TimelineId,
    name: Seq<char>,
)
    ensures
        is_in_timeline(
            path_join(conf.spec_timeline_path(tenant_id, timeline_id), name),
            conf.workdir@,
            tenant_id,
            timeline_id,
            name,
        ),
{
    let dir = conf.spec_timeline_path(tenant_id, timeline_id);
    lemma_timeline_dir(conf, tenant_id, timeline_id);
    reveal_strlit("/");
    assert(path_join(dir, name) =~= dir.push('/') + name);
}

/// `PageServerConf::timeline_path` gives the directory of the timeline.
pub proof fn law_timeline_path(
    conf: PageServerConf,
    tenant_id: TenantId,
    timeline_id: TimelineId,
    path: String,
)
    requires
        call_ensures(PageServerConf::timeline_path, (&conf, &tenant_id, &timeline_id), path),
    ensures
        is_timeline_dir(path@, conf.workdir@, tenant_id, timeline_id),
{
    lemma_timeline_dir(conf, tenant_id, timeline_id);
}

/// Whether a path is that of the file of a layer: the path that was given, or one
/// in the directory of the timeline, with the name of the file.
pub open spec fn is_layer_path(
    path: Seq<char>,
    path_or_conf: PathOrConf,
    timeline_id: TimelineId,
    tenant_id: TenantId,
    fname: ImageFileName,
) -> bool {
    match path_or_conf {
        PathOrConf::Path(given) => path == given@,
        PathOrConf::Conf(conf) => exists|name: Seq<char>| #[trigger]
            is_file_name(name, fname) && is_in_timeline(
                path,
                conf.workdir@,
                tenant_id,
                timeline_id,
                name,
            ),
    }
}

/// The path of a layer's file is found by what the layer is.
pub proof fn law_layer_path(
    path_or_conf: PathOrConf,
    timeline_id: TimelineId,
    tenant_id: TenantId,
    fname: ImageFileName,
)
    ensures
        is_layer_path(
            spec_path_for(path_or_conf, timeline_id, tenant_id, fname),
            path_or_conf,
            timeline_id,
            tenant_id,
            fname,
        ),
{
    if let PathOrConf::Conf(conf) = path_or_conf {
        law_name(fname);
        lemma_in_timeline(*conf, tenant_id, timeline_id, fname.name());
    }
}

/// `path_for` gives the path of the layer's file.
pub proof fn law_path_for(
    path_or_conf: PathOrConf,
    timeline_id: TimelineId,
    tenant_id: TenantId,
    fname: ImageFileName,
    path: String,
)
    requires
        call_ensures(path_for, (&path_or_conf, timeline_id, tenant_id, &fname), path),
    ensures
        is_layer_path(path@, path_or_conf, timeline_id, tenant_id, fname),
{
    law_layer_path(path_or_conf, timeline_id, tenant_id, fname);
}

/// A path under one directory is that of the file of at most one layer: of one
/// tenant, one timeline, one range of keys and one position.
pub proof fn law_layer_path_tells(
    path: Seq<char>,
    conf: &'static PageServerConf,
    left_timeline: TimelineId,
    left_tenant: TenantId,
    left: ImageFileName,
    right_timeline: TimelineId,
    right_tenant: TenantId,
    right: ImageFileName,
)
    requires
        is_layer_path(path, PathOrConf::Conf(conf), left_timeline, left_tenant, left),
        is_layer_path(path, PathOrConf::Conf(conf), right_timeline, right_tenant, right),
    ensures
        left == right,
        left_timeline == right_timeline,
        left_tenant == right_tenant,
{
    let work = conf.workdir@;
    let left_name = choose|name: Seq<char>| #[trigger]
        is_file_name(name, left) && is_in_timeline(path, work, left_tenant, left_timeline, name);
    let right_name = choose|name: Seq<char>| #[trigger]
        is_file_name(name, right) && is_in_timeline(
            path,
            work,
            right_tenant,
            right_timeline,
            name,
        );
    let left_dir = choose|dir: Seq<char>| #[trigger]
        is_timeline_dir(dir, work, left_tenant, left_timeline) && path == dir.push('/')
            + left_name;
    let right_dir = choose|dir: Seq<char>| #[trigger]
        is_timeline_dir(dir, work, right_tenant, right_timeline) && path == dir.push('/')
            + right_name;
    assert(left_dir.len() == right_dir.len());
    assert(left_dir =~= path.take(left_dir.len() as int));
    assert(right_dir =~= path.take(right_dir.len() as int));
    assert(left_name =~= path.skip(left_dir.len() as int + 1));
    assert(right_name =~= path.skip(left_dir.len() as int + 1));
    law_name_tells(left_name, left, right);
    law_timeline_dir_tells(
        left_dir,
        work,
        left_tenant,
        left_timeline,
        right_tenant,
        right_timeline,
    );
}

/// A path is the directory of at most one timeline of one tenant.
pub proof fn law_timeline_dir_tells(
    dir: Seq<char>,
    workdir: Seq<char>,
    left_tenant: TenantId,
    left_timeline: TimelineId,
    right_tenant: TenantId,
    right_timeline: TimelineId,
)
    requires
        is_timeline_dir(dir, workdir, left_tenant, left_timeline),
        is_timeline_dir(dir, workdir, right_tenant, right_timeline),
    ensures
        left_tenant == right_tenant,
        left_timeline == right_timeline,
{
    let start = inside(workdir).len() as int + 8;
    let tenant = dir.subrange(start, start + 32);
    let timeline = dir.subrange(start + 43, start + 75);
    lemma_timeline_dir_parts(dir, workdir, left_tenant, left_timeline);
    lemma_timeline_dir_parts(dir, workdir, right_tenant, right_timeline);
    law_hex_unique(tenant, left_tenant.0@, right_tenant.0@);
    law_hex_unique(timeline, left_timeline.0@, right_timeline.0@);
    assert(left_tenant.0 =~= right_tenant.0);
    assert(left_timeline.0 =~= right_timeline.0);
}

/// Where the parts of the directory of a timeline lie.
proof fn lemma_timeline_dir_parts(
    dir: Seq<char>,
    workdir: Seq<char>,
    tenant_id: TenantId,
    timeline_id: TimelineId,
)
    requires
        is_timeline_dir(dir, workdir, tenant_id, timeline_id),
    ensures
        dir.len() == inside(workdir).len() + 83,
        is_hex_of(
            dir.subrange(inside(workdir).len() as int + 8, inside(workdir).len() as int + 40),
            tenant_id.0@,
        ),
        is_hex_of(
            dir.subrange(inside(workdir).len() as int + 51, inside(workdir).len() as int + 83),
            timeline_id.0@,
        ),
{
    let start = inside(workdir).len() as int;
    let (tenant, timeline) = choose|tenant: Seq<char>, timeline: Seq<char>|
        #![trigger is_hex_of(tenant, tenant_id.0@), is_hex_of(timeline, timeline_id.0@)]
        {
            &&& is_hex_of(tenant, tenant_id.0@)
            &&& is_hex_of(timeline, timeline_id.0@)
            &&& dir == inside(workdir) + seq!['t', 'e', 'n', 'a', 'n', 't', 's', '/'] + tenant
                + seq!['/', 't', 'i', 'm', 'e', 'l', 'i', 'n', 'e', 's', '/'] + timeline
        };
    assert(dir.subrange(start + 8, start + 40) =~= tenant);
    assert(dir.subrange(start + 51, start + 83) =~= timeline);
}

/// Whether a text is the name of a temporary file: the final name, a random part
/// of eight letters and digits, and `___temp`, with dots between them.
pub open spec fn is_temp_name(text: Seq<char>, fname: ImageFileName, random: Seq<char>) -> bool {
    &&& text.len() == 99 + random.len() + 1
    &&& is_file_name(text.subrange(0, 91), fname)
    &&& text[91] == '.'
    &&& text.subrange(92, 92 + random.len() as int) == random
    &&& text.skip(92 + random.len() as int) == seq!['.', '_', '_', '_', 't', 'e', 'm', 'p']
}

/// A temporary path tells what it is the path of.
proof fn lemma_temp_path(
    conf: PageServerConf,
    timeline_id: TimelineId,
    tenant_id: TenantId,
    fname: ImageFileName,
    random: Seq<char>,
)
    ensures
        is_temp_name(fname.temp_name(random), fname, random),
        is_in_timeline(
            spec_temp_path(conf, timeline_id, tenant_id, fname, random),
            conf.workdir@,
            tenant_id,
            timeline_id,
            fname.temp_name(random),
        ),
{
    reveal_strlit(".");
    reveal_strlit("___temp");
    law_name(fname);
    let text = fname.temp_name(random);
    assert(text.subrange(0, 91) =~= fname.name());
    assert(text.subrange(92, 92 + random.len() as int) =~= random);
    assert(text.skip(92 + random.len() as int) =~= seq!['.', '_', '_', '_', 't', 'e', 'm', 'p']);
    lemma_in_timeline(conf, tenant_id, timeline_id, text);
}

/// Whether a path is that of a temporary file of a layer, with some random part.
pub open spec fn is_some_temp_path(
    path: Seq<char>,
    conf: PageServerConf,
    timeline_id: TimelineId,
    tenant_id: TenantId,
    fname: ImageFileName,
) -> bool {
    exists|name: Seq<char>, random: Seq<char>|
        #![trigger is_temp_name(name, fname, random)]
        {
            &&& is_temp_name(name, fname, random)
            &&& random.len() == 8
            &&& forall|i: int|
                0 <= i < 8 ==> ('0' <= #[trigger] random[i] <= '9' || 'A' <= random[i] <= 'Z' || 'a'
                    <= random[i] <= 'z')
            &&& is_in_timeline(path, conf.workdir@, tenant_id, timeline_id, name)
        }
}

/// `temp_path_with` gives the path of a temporary file with the given random part.
pub proof fn law_temp_path_with(
    conf: PageServerConf,
    timeline_id: TimelineId,
    tenant_id: TenantId,
    fname: ImageFileName,
    random: &str,
    path: String,
)
    requires
        call_ensures(temp_path_with, (&conf, timeline_id, tenant_id, &fname, random), path),
    ensures
        exists|name: Seq<char>| #[trigger]
            is_temp_name(name, fname, random@) && is_in_timeline(
                path@,
                conf.workdir@,
                tenant_id,
                timeline_id,
                name,
            ),
{
    lemma_temp_path(conf, timeline_id, tenant_id, fname, random@);
}

/// A path with a random part is that of a temporary file.
pub proof fn law_is_temp_path(
    path: Seq<char>,
    conf: PageServerConf,
    timeline_id: TimelineId,
    tenant_id: TenantId,
    fname: ImageFileName,
)
    requires
        is_temp_path(path, conf, timeline_id, tenant_id, fname),
    ensures
        is_some_temp_path(path, conf, timeline_id, tenant_id, fname),
{
    let random = choose|random: Seq<char>|
        is_random_part(random) && path == #[trigger] spec_temp_path(
            conf,
            timeline_id,
            tenant_id,
            fname,
            random,
        );
    lemma_temp_path(conf, timeline_id, tenant_id, fname, random);
    assert forall|i: int| 0 <= i < 8 implies ('0' <= #[trigger] random[i] <= '9' || 'A'
        <= random[i] <= 'Z' || 'a' <= random[i] <= 'z') by {
        assert(is_alphanumeric(random[i]));
    }
    assert(is_temp_name(fname.temp_name(random), fname, random));
}

/// `temp_path_for` gives the path of a temporary file.
pub proof fn law_temp_path_for(
    conf: PageServerConf,
    timeline_id: TimelineId,
    tenant_id: TenantId,
    fname: ImageFileName,
    path: String,
)
    requires
        call_ensures(temp_path_for, (&conf, timeline_id, tenant_id, &fname), path),
    ensures
        is_some_temp_path(path@, conf, timeline_id, tenant_id, fname),
{
    law_is_temp_path(path@, conf, timeline_id, tenant_id, fname);
}

/// Whether a line shows an entry: its key in small hexadecimal digits behind
/// `key: `, and its offset in decimal behind ` offset `.
pub open spec fn is_entry_line(line: Seq<char>, key: Seq<u8>, offset: nat) -> bool {
    &&& line.len() > 49
    &&& line.subrange(0, 5) == seq!['k', 'e', 'y', ':', ' ']
    &&& is_hex_of(line.subrange(5, 41), key)
    &&& line.subrange(41, 49) == seq![' ', 'o', 'f', 'f', 's', 'e', 't', ' ']
    &&& is_numeral(line.skip(49), 10, offset)
}

/// The line of an entry shows it.
pub proof fn law_entry_line(key: Seq<u8>, offset: nat)
    requires
        key.len() == 18,
    ensures
        is_entry_line(entry_line(key, offset), key, offset),
{
    let line = entry_line(key, offset);
    reveal_strlit("key: ");
    reveal_strlit(" offset ");
    law_hex_read_back(key);
    law_digits_read_back(offset, 10);
    assert(line.subrange(0, 5) =~= seq!['k', 'e', 'y', ':', ' ']);
    assert(line.subrange(5, 41) =~= hex_lower(key));
    assert(line.subrange(41, 49) =~= seq![' ', 'o', 'f', 'f', 's', 'e', 't', ' ']);
    assert(line.skip(49) =~= decimal(offset));
}

/// `show_entry` gives a line that shows the entry.
pub proof fn law_show_entry(key: [u8; KEY_SIZE], offset: u64, line: String)
    requires
        call_ensures(show_entry, (&key, offset), line),
    ensures
        is_entry_line(line@, key@, offset as nat),
{
    law_entry_line(key@, offset as nat);
}

/// A line shows at most one entry.
pub proof fn law_entry_line_tells(
    line: Seq<char>,
    left_key: Seq<u8>,
    left_offset: nat,
    right_key: Seq<u8>,
    right_offset: nat,
)
    requires
        is_entry_line(line, left_key, left_offset),
        is_entry_line(line, right_key, right_offset),
    ensures
        left_key == right_key,
        left_offset == right_offset,
{
    law_hex_unique(line.subrange(5, 41), left_key, right_key);
}

/// Whether a line shows a node: its block, its level and how many entries it has,
/// each in decimal.
pub open spec fn is_node_line(line: Seq<char>, block: nat, level: nat, entries: nat) -> bool {
    exists|number: Seq<char>, height: Seq<char>, count: Seq<char>|
        #![trigger is_numeral(number, 10, block), is_numeral(height, 10, level),
            is_numeral(count, 10, entries)]
        {
            &&& is_numeral(number, 10, block)
            &&& is_numeral(height, 10, level)
            &&& is_numeral(count, 10, entries)
            &&& line == seq!['b', 'l', 'k', ' ', '#'] + number + seq![
                ':',
                ' ',
                'l',
                'e',
                'v',
                'e',
                'l',
                ' ',
            ] + height + seq![' ', 'e', 'n', 't', 'r', 'i', 'e', 's', ' '] + count
        }
}

/// `show_node` gives a line that shows the node.
pub proof fn law_show_node(block: u64, node: OnDiskNode, line: String)
    requires
        call_ensures(show_node, (block, &node), line),
    ensures
        is_node_line(line@, block as nat, node.level as nat, node.keys@.len()),
{
    reveal_strlit("blk #");
    reveal_strlit(": level ");
    reveal_strlit(" entries ");
    let number = decimal(block as nat);
    let height = decimal(node.level as nat);
    let count = decimal(node.keys@.len());
    law_digits_read_back(block as nat, 10);
    law_digits_read_back(node.level as nat, 10);
    law_digits_read_back(node.keys@.len(), 10);
    assert(line@ =~= seq!['b', 'l', 'k', ' ', '#'] + number + seq![
        ':',
        ' ',
        'l',
        'e',
        'v',
        'e',
        'l',
        ' ',
    ] + height + seq![' ', 'e', 'n', 't', 'r', 'i', 'e', 's', ' '] + count);
}

/// Numbers and bytes are appended as they are written, and nothing before them
/// changes.
pub proof fn law_put_texts(
    before: String,
    value: u64,
    base: u64,
    after: String,
    decimal_after: String,
    bytes: &[u8],
    hex_after: String,
)
    requires
        2 <= base <= 16,
        exists|text: &mut String|
            *text == before && *final(text) == after && #[trigger] call_ensures(
                put_number,
                (text, value, base),
                (),
            ),
        exists|text: &mut String|
            *text == before && *final(text) == decimal_after && #[trigger] call_ensures(
                put_decimal,
                (text, value),
                (),
            ),
        exists|text: &mut String|
            *text == before && *final(text) == hex_after && #[trigger] call_ensures(
                put_hex_upper,
                (text, bytes),
                (),
            ),
    ensures
        before@.is_prefix_of(after@),
        is_numeral(after@.skip(before@.len() as int), base as nat, value as nat),
        before@.is_prefix_of(decimal_after@),
        is_numeral(decimal_after@.skip(before@.len() as int), 10, value as nat),
        before@.is_prefix_of(hex_after@),
        hex_after@.len() == before@.len() + 2 * bytes@.len(),
        number_read(hex_after@.skip(before@.len() as int), 16) == be_value(bytes@),
{
    law_digits_read_back(value as nat, base as nat);
    law_digits_read_back(value as nat, 10);
    law_hex_number(bytes@);
    assert(after@.skip(before@.len() as int) =~= digits(value as nat, base as nat));
    assert(decimal_after@.skip(before@.len() as int) =~= decimal(value as nat));
    assert(hex_after@.skip(before@.len() as int) =~= hex_upper(bytes@));
}

} // verus!
