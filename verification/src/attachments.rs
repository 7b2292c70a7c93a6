//! Files that go along with a message: which kind they are of, and what is sent
//! of them. The contents are read by the caller.

use vstd::prelude::*;

use crate::paths::{extension, file_name};
use crate::text;

verus! {

/// A file that goes along with a message.
#[derive(Debug)]
pub struct Attachment {
    pub kind: String,
    pub data: Vec<u8>,
    pub mime: String,
    pub label: String,
}

/// What an [`Attachment`] holds.
#[verifier::ext_equal]
pub struct AttachmentView {
    pub kind: Seq<char>,
    pub data: Seq<u8>,
    pub mime: Seq<char>,
    pub label: Seq<char>,
}

impl View for Attachment {
    type V = AttachmentView;

    open spec fn view(&self) -> AttachmentView {
        AttachmentView {
            kind: self.kind@,
            data: self.data@,
            mime: self.mime@,
            label: self.label@,
        }
    }
}

/// What stands behind the last slash, or all where there is none.
pub open spec fn behind_last_slash(s: Seq<char>) -> Seq<char> {
    match text::last_place(s, '/') {
        Some(i) => s.skip(i + 1),
        None => s,
    }
}

// ---------------------------------------------------------------------------
// Kinds
// ---------------------------------------------------------------------------

/// The kind of media, and its type, that an extension stands for.
pub open spec fn media_of(ext: Seq<char>) -> (Seq<char>, Seq<char>) {
    if ext == "png"@ {
        ("image"@, "image/png"@)
    } else if ext == "jpg"@ || ext == "jpeg"@ {
        ("image"@, "image/jpeg"@)
    } else if ext == "gif"@ {
        ("image"@, "image/gif"@)
    } else if ext == "webp"@ {
        ("image"@, "image/webp"@)
    } else if ext == "bmp"@ {
        ("image"@, "image/bmp"@)
    } else if ext == "tif"@ || ext == "tiff"@ {
        ("image"@, "image/tiff"@)
    } else if ext == "wav"@ {
        ("audio"@, "audio/wav"@)
    } else if ext == "mp3"@ {
        ("audio"@, "audio/mpeg"@)
    } else if ext == "flac"@ {
        ("audio"@, "audio/flac"@)
    } else if ext == "ogg"@ || ext == "oga"@ {
        ("audio"@, "audio/ogg"@)
    } else if ext == "m4a"@ || ext == "aac"@ {
        ("audio"@, "audio/aac"@)
    } else if ext == "mp4"@ {
        ("video"@, "video/mp4"@)
    } else if ext == "mov"@ {
        ("video"@, "video/quicktime"@)
    } else if ext == "mkv"@ {
        ("video"@, "video/x-matroska"@)
    } else if ext == "webm"@ {
        ("video"@, "video/webm"@)
    } else if ext == "avi"@ {
        ("video"@, "video/x-msvideo"@)
    } else {
        (""@, ""@)
    }
}

/// The kind of media, and its type, that the extension of a path stands for;
/// capitals make no difference.
pub open spec fn guessed(path: Seq<char>, windows: bool) -> (Seq<char>, Seq<char>) {
    media_of(text::lowered(crate::paths::extension_of(path, windows)))
}

/// The kind of media, and its type, that the extension of a path stands for.
pub fn kind_from_extension(path: &str, windows: bool) -> (r: (&'static str, &'static str))
    ensures
        (r.0@, r.1@) == guessed(path@, windows),
{
    let lower: String = text::to_lower(extension(path, windows).as_str());
    let ext: &str = lower.as_str();
    if text::str_eq(ext, "png") {
        ("image", "image/png")
    } else if text::str_eq(ext, "jpg") || text::str_eq(ext, "jpeg") {
        ("image", "image/jpeg")
    } else if text::str_eq(ext, "gif") {
        ("image", "image/gif")
    } else if text::str_eq(ext, "webp") {
        ("image", "image/webp")
    } else if text::str_eq(ext, "bmp") {
        ("image", "image/bmp")
    } else if text::str_eq(ext, "tif") || text::str_eq(ext, "tiff") {
        ("image", "image/tiff")
    } else if text::str_eq(ext, "wav") {
        ("audio", "audio/wav")
    } else if text::str_eq(ext, "mp3") {
        ("audio", "audio/mpeg")
    } else if text::str_eq(ext, "flac") {
        ("audio", "audio/flac")
    } else if text::str_eq(ext, "ogg") || text::str_eq(ext, "oga") {
        ("audio", "audio/ogg")
    } else if text::str_eq(ext, "m4a") || text::str_eq(ext, "aac") {
        ("audio", "audio/aac")
    } else if text::str_eq(ext, "mp4") {
        ("video", "video/mp4")
    } else if text::str_eq(ext, "mov") {
        ("video", "video/quicktime")
    } else if text::str_eq(ext, "mkv") {
        ("video", "video/x-matroska")
    } else if text::str_eq(ext, "webm") {
        ("video", "video/webm")
    } else if text::str_eq(ext, "avi") {
        ("video", "video/x-msvideo")
    } else {
        ("", "")
    }
}

// ---------------------------------------------------------------------------
// Reading
// ---------------------------------------------------------------------------

/// Why a file cannot go along.
#[derive(Debug)]
pub enum AttachmentError {
    /// Neither is its kind said, nor does its extension stand for one.
    UnknownKind,
    /// It cannot be read, and why.
    Unreadable(String),
    /// There is nothing in it.
    Empty,
}

impl AttachmentError {
    /// Why the file at a path cannot go along, in words.
    pub open spec fn text(&self, path: Seq<char>) -> Seq<char> {
        match *self {
            AttachmentError::UnknownKind => "cannot tell what kind of media "@ + path
                + " is; pass it with --image, --audio or --video"@,
            AttachmentError::Unreadable(cause) => "cannot read attachment "@ + path + ": "@
                + cause@,
            AttachmentError::Empty => "attachment "@ + path + " is empty"@,
        }
    }

    /// Why the file at a path cannot go along, in words.
    pub fn message(&self, path: &str) -> (s: String)
        ensures
            s@ == self.text(path@),
    {
        match self {
            AttachmentError::UnknownKind => {
                let mut s: String = "cannot tell what kind of media ".to_string();
                s.append(path);
                s.append(" is; pass it with --image, --audio or --video");
                s
            },
            AttachmentError::Unreadable(cause) => {
                let mut s: String = "cannot read attachment ".to_string();
                s.append(path);
                s.append(": ");
                s.append(cause.as_str());
                s
            },
            AttachmentError::Empty => {
                let mut s: String = "attachment ".to_string();
                s.append(path);
                s.append(" is empty");
                s
            },
        }
    }
}

/// The kind of a file: the one that is said, or else the one that its extension
/// stands for.
pub open spec fn kind_of(path: Seq<char>, forced: Option<Seq<char>>, windows: bool) -> Seq<char> {
    match forced {
        Some(k) => k,
        None => guessed(path, windows).0,
    }
}

/// Whether the kind of a file is known: it is said, or its extension stands for one.
pub open spec fn kind_known(path: Seq<char>, forced: Option<Seq<char>>, windows: bool) -> bool {
    forced is Some || guessed(path, windows).0.len() > 0
}

/// What goes along of a file: its type is the one that its extension stands for,
/// or that of any bytes, and its label is its name.
pub open spec fn attached(
    path: Seq<char>,
    forced: Option<Seq<char>>,
    data: Seq<u8>,
    windows: bool,
) -> AttachmentView {
    AttachmentView {
        kind: kind_of(path, forced, windows),
        data,
        mime: if guessed(path, windows).1.len() == 0 {
            "application/octet-stream"@
        } else {
            guessed(path, windows).1
        },
        label: match crate::paths::file_name_of(path, windows) {
            Some(name) => name,
            None => path,
        },
    }
}

/// The result is what comes of a file at a path with the given contents: it goes
/// along, unless its kind is not known, it cannot be read, or it is empty.
pub open spec fn comes_of(
    r: Result<Attachment, AttachmentError>,
    path: Seq<char>,
    forced: Option<Seq<char>>,
    content: Result<Vec<u8>, String>,
    windows: bool,
) -> bool {
    if !kind_known(path, forced, windows) {
        r matches Err(e) && e is UnknownKind
    } else {
        match content {
            Err(cause) => r matches Err(AttachmentError::Unreadable(c)) && c@ == cause@,
            Ok(data) => if data@.len() == 0 {
                r matches Err(e) && e is Empty
            } else {
                r matches Ok(a) && a@ == attached(path, forced, data@, windows)
            },
        }
    }
}

/// What an optional text holds.
pub open spec fn str_option(s: Option<&str>) -> Option<Seq<char>> {
    match s {
        Some(s) => Some(s@),
        None => None,
    }
}

/// What comes of a file at a path with the given contents.
pub fn read_attachment(
    path: &str,
    forced_kind: Option<&str>,
    content: &Result<Vec<u8>, String>,
    windows: bool,
) -> (r: Result<Attachment, AttachmentError>)
    ensures
        comes_of(r, path@, str_option(forced_kind), *content, windows),
{
    let (kind_here, mime_here) = kind_from_extension(path, windows);
    proof {
        reveal_strlit("");
    }
    let kind: String = match forced_kind {
        Some(k) => k.to_string(),
        None => {
            if text::str_eq(kind_here, "") {
                assert(kind_here@.len() == 0);
                return Err(AttachmentError::UnknownKind);
            }
            assert(kind_here@.len() > 0) by {
                if kind_here@.len() == 0 {
                    assert(kind_here@ =~= ""@);
                }
            }
            kind_here.to_string()
        },
    };
    match content {
        Err(cause) => Err(AttachmentError::Unreadable(cause.clone())),
        Ok(data) => {
            if data.len() == 0 {
                return Err(AttachmentError::Empty);
            }
            let mime: String = if text::str_eq(mime_here, "") {
                "application/octet-stream".to_string()
            } else {
                assert(mime_here@.len() > 0) by {
                    if mime_here@.len() == 0 {
                        assert(mime_here@ =~= ""@);
                    }
                }
                mime_here.to_string()
            };
            let label: String = match file_name(path, windows) {
                Some(name) => name,
                None => path.to_string(),
            };
            Ok(Attachment { kind, data: text::copy_bytes(data), mime, label })
        },
    }
}

/// The files that are named, with the kind that is said of each: the pictures,
/// the sounds, the clips, and then those of which none is said.
pub open spec fn named(
    images: Seq<String>,
    audio: Seq<String>,
    video: Seq<String>,
    media: Seq<String>,
) -> Seq<(Seq<char>, Option<Seq<char>>)> {
    with_kind(images, Some("image"@)) + with_kind(audio, Some("audio"@)) + with_kind(
        video,
        Some("video"@),
    ) + with_kind(media, None)
}

/// Paths, each with the same kind.
pub open spec fn with_kind(paths: Seq<String>, kind: Option<Seq<char>>) -> Seq<
    (Seq<char>, Option<Seq<char>>),
> {
    Seq::new(paths.len(), |i: int| (paths[i]@, kind))
}

/// What attachments hold.
pub open spec fn attachment_views(v: Seq<Attachment>) -> Seq<AttachmentView> {
    Seq::new(v.len(), |i: int| v[i]@)
}

/// The first `n` of the files go along, in order.
pub open spec fn all_attached(
    v: Seq<AttachmentView>,
    files: Seq<(Seq<char>, Option<Seq<char>>)>,
    contents: Seq<Result<Vec<u8>, String>>,
    n: int,
    windows: bool,
) -> bool {
    &&& v.len() == n
    &&& forall|i: int|
        0 <= i < n ==> {
            &&& kind_known((#[trigger] files[i]).0, files[i].1, windows)
            &&& contents[i] matches Ok(data) && data@.len() > 0 && v[i] == attached(
                files[i].0,
                files[i].1,
                data@,
                windows,
            )
        }
}

fn attach_all(
    paths: &Vec<String>,
    kind: Option<&str>,
    contents: &Vec<Result<Vec<u8>, String>>,
    from: usize,
    windows: bool,
    out: &mut Vec<Attachment>,
    files: Ghost<Seq<(Seq<char>, Option<Seq<char>>)>>,
) -> (r: Option<(usize, AttachmentError)>)
    requires
        old(out)@.len() == from,
        from + paths@.len() <= contents@.len(),
        from + paths@.len() <= files@.len(),
        forall|i: int|
            0 <= i < paths@.len() ==> #[trigger] files@[from + i] == (
                paths@[i]@,
                str_option(kind),
            ),
        all_attached(attachment_views(old(out)@), files@, contents@, from as int, windows),
    ensures
        match r {
            None => all_attached(
                attachment_views(final(out)@),
                files@,
                contents@,
                from + paths@.len(),
                windows,
            ),
            Some((k, e)) => from <= k < from + paths@.len() && all_attached(
                attachment_views(final(out)@),
                files@,
                contents@,
                k as int,
                windows,
            ) && comes_of(
                Err(e),
                files@[k as int].0,
                files@[k as int].1,
                contents@[k as int],
                windows,
            ),
        },
{
    let mut i: usize = 0;
    let n: usize = contents.len();
    while i < paths.len()
        invariant
            i <= paths@.len(),
            n == contents@.len(),
            from + paths@.len() <= n,
            from + paths@.len() <= files@.len(),
            forall|i: int|
                0 <= i < paths@.len() ==> #[trigger] files@[from + i] == (
                    paths@[i]@,
                    str_option(kind),
                ),
            all_attached(attachment_views(out@), files@, contents@, from + i, windows),
        decreases paths@.len() - i,
    {
        let ghost before = attachment_views(out@);
        assert(files@[from + i] == (paths@[i as int]@, str_option(kind)));
        match read_attachment(paths[i].as_str(), kind, &contents[from + i], windows) {
            Ok(a) => {
                let ghost item = a@;
                out.push(a);
                assert(attachment_views(out@) =~= before.push(item));
            },
            Err(e) => {
                return Some((from + i, e));
            },
        }
        i += 1;
    }
    None
}

/// The files that go along with a message, in the order in which they are named;
/// or else the place of the first that cannot, and why. `contents` is what was
/// read of each, and `windows` which family of systems the paths are of.
pub fn collect_attachments(
    images: &Vec<String>,
    audio: &Vec<String>,
    video: &Vec<String>,
    media: &Vec<String>,
    contents: &Vec<Result<Vec<u8>, String>>,
    windows: bool,
) -> (r: Result<Vec<Attachment>, (usize, AttachmentError)>)
    requires
        contents@.len() == images@.len() + audio@.len() + video@.len() + media@.len(),
    ensures
        ({
            let files = named(images@, audio@, video@, media@);
            match r {
                Ok(v) => all_attached(
                    attachment_views(v@),
                    files,
                    contents@,
                    files.len() as int,
                    windows,
                ),
                Err((k, e)) => k < files.len() && comes_of(
                    Err(e),
                    files[k as int].0,
                    files[k as int].1,
                    contents@[k as int],
                    windows,
                ) && exists|v: Seq<AttachmentView>|
                    all_attached(v, files, contents@, k as int, windows),
            }
        }),
{
    let mut out: Vec<Attachment> = Vec::new();
    let ghost files = named(images@, audio@, video@, media@);
    assert(contents@.len() == contents.len());
    if let Some(failure) = attach_all(
        images,
        Some("image"),
        contents,
        0,
        windows,
        &mut out,
        Ghost(files),
    ) {
        return Err(failure);
    }
    let from: usize = images.len();
    if let Some(failure) = attach_all(
        audio,
        Some("audio"),
        contents,
        from,
        windows,
        &mut out,
        Ghost(files),
    ) {
        return Err(failure);
    }
    let from: usize = from + audio.len();
    if let Some(failure) = attach_all(
        video,
        Some("video"),
        contents,
        from,
        windows,
        &mut out,
        Ghost(files),
    ) {
        return Err(failure);
    }
    let from: usize = from + video.len();
    if let Some(failure) = attach_all(
        media,
        None,
        contents,
        from,
        windows,
        &mut out,
        Ghost(files),
    ) {
        return Err(failure);
    }
    Ok(out)
}

/// What goes along keeps the order in which it was named, across kinds.
pub proof fn attachments_keep_their_order(
    v: Seq<AttachmentView>,
    files: Seq<(Seq<char>, Option<Seq<char>>)>,
    contents: Seq<Result<Vec<u8>, String>>,
    i: int,
    windows: bool,
)
    requires
        all_attached(v, files, contents, files.len() as int, windows),
        0 <= i < files.len(),
    ensures
        v.len() == files.len(),
        v[i].kind == kind_of(files[i].0, files[i].1, windows),
        contents[i] matches Ok(data) && v[i].data == data@,
{
    assert(kind_known(files[i].0, files[i].1, windows));
}

// ---------------------------------------------------------------------------
// Attaching by a command
// ---------------------------------------------------------------------------

/// What stands behind a command that is followed by white space, without the
/// white space at both ends.
pub open spec fn argument_of(msg: Seq<char>, command: Seq<char>, rest: Seq<char>) -> bool {
    ||| msg == command && rest.len() == 0
    ||| text::has_prefix(msg, command) && msg.len() > command.len() && text::is_space(
        msg[command.len() as int],
    ) && text::trims_to(msg.skip(command.len() as int), rest)
}

/// The commands that attach a file.
pub open spec fn attach_commands() -> Seq<Seq<char>> {
    seq!["/attach"@, "/image"@, "/audio"@, "/video"@]
}

/// Whether a message is a command with or without something behind it.
pub open spec fn is_command(msg: Seq<char>, command: Seq<char>) -> bool {
    msg == command || (text::has_prefix(msg, command) && msg.len() > command.len()
        && text::is_space(msg[command.len() as int]))
}

fn argument(msg: &str, command: &str) -> (r: Option<String>)
    ensures
        match r {
            Some(rest) => is_command(msg@, command@) && argument_of(msg@, command@, rest@),
            None => !is_command(msg@, command@),
        },
{
    if text::str_eq(msg, command) {
        let none: String = String::new();
        return Some(none);
    }
    match text::strip_prefix(msg, command) {
        Some(rest) => {
            let cs: Vec<char> = text::chars_of(rest.as_str());
            proof {
                if msg@.len() == command@.len() {
                    assert(msg@.subrange(0, command@.len() as int) =~= msg@);
                }
                if cs@.len() > 0 {
                    assert(cs@[0] == msg@[command@.len() as int]);
                }
            }
            if cs.len() > 0 && text::space(cs[0]) {
                Some(text::trim(rest.as_str()))
            } else {
                None
            }
        },
        None => None,
    }
}

/// The command by which a message attaches a file, and the path behind it.
pub fn split_attach_command(msg: &str) -> (r: Option<(&'static str, String)>)
    ensures
        match r {
            Some((command, rest)) => attach_commands().contains(command@) && is_command(
                msg@,
                command@,
            ) && argument_of(msg@, command@, rest@),
            None => forall|i: int|
                0 <= i < attach_commands().len() ==> !is_command(
                    msg@,
                    #[trigger] attach_commands()[i],
                ),
        },
{
    if let Some(rest) = argument(msg, "/attach") {
        assert(attach_commands()[0] == "/attach"@);
        return Some(("/attach", rest));
    }
    if let Some(rest) = argument(msg, "/image") {
        assert(attach_commands()[1] == "/image"@);
        return Some(("/image", rest));
    }
    if let Some(rest) = argument(msg, "/audio") {
        assert(attach_commands()[2] == "/audio"@);
        return Some(("/audio", rest));
    }
    if let Some(rest) = argument(msg, "/video") {
        assert(attach_commands()[3] == "/video"@);
        return Some(("/video", rest));
    }
    None
}

/// The kind that a command says of a file.
pub open spec fn kind_said(command: Seq<char>) -> Option<Seq<char>> {
    if command == "/image"@ {
        Some("image"@)
    } else if command == "/audio"@ {
        Some("audio"@)
    } else if command == "/video"@ {
        Some("video"@)
    } else {
        None
    }
}

/// The kind that a command says of a file.
pub fn forced_kind(command: &str) -> (r: Option<&'static str>)
    ensures
        match r {
            Some(k) => kind_said(command@) == Some(k@),
            None => kind_said(command@) is None,
        },
{
    if text::str_eq(command, "/image") {
        Some("image")
    } else if text::str_eq(command, "/audio") {
        Some("audio")
    } else if text::str_eq(command, "/video") {
        Some("video")
    } else {
        None
    }
}

// ---------------------------------------------------------------------------
// Laws
// ---------------------------------------------------------------------------
/// Each type of media belongs to its kind: the type begins with the kind and a slash.
/// Where an extension stands for no kind, it stands for no type either.
pub proof fn a_type_belongs_to_its_kind(ext: Seq<char>)
    ensures
        media_of(ext).0.len() > 0 ==> text::has_prefix(media_of(ext).1, media_of(ext).0 + "/"@),
        media_of(ext).0.len() == 0 <==> media_of(ext).1.len() == 0,
{
    reveal_strlit("");
    reveal_strlit("/");
    types_of_pictures();
    types_of_sounds();
    types_of_clips();
}

proof fn types_of_pictures()
    ensures
        "image"@.len() > 0,
        text::has_prefix("image/png"@, "image"@ + "/"@),
        text::has_prefix("image/jpeg"@, "image"@ + "/"@),
        text::has_prefix("image/gif"@, "image"@ + "/"@),
        text::has_prefix("image/webp"@, "image"@ + "/"@),
        text::has_prefix("image/bmp"@, "image"@ + "/"@),
        text::has_prefix("image/tiff"@, "image"@ + "/"@),
{
    reveal_strlit("image");
    reveal_strlit("/");
    reveal_strlit("image/png");
    assert("image/png"@.subrange(0, 6) =~= "image"@ + "/"@);
    reveal_strlit("image/jpeg");
    assert("image/jpeg"@.subrange(0, 6) =~= "image"@ + "/"@);
    reveal_strlit("image/gif");
    assert("image/gif"@.subrange(0, 6) =~= "image"@ + "/"@);
    reveal_strlit("image/webp");
    assert("image/webp"@.subrange(0, 6) =~= "image"@ + "/"@);
    reveal_strlit("image/bmp");
    assert("image/bmp"@.subrange(0, 6) =~= "image"@ + "/"@);
    reveal_strlit("image/tiff");
    assert("image/tiff"@.subrange(0, 6) =~= "image"@ + "/"@);
}

proof fn types_of_sounds()
    ensures
        "audio"@.len() > 0,
        text::has_prefix("audio/wav"@, "audio"@ + "/"@),
        text::has_prefix("audio/mpeg"@, "audio"@ + "/"@),
        text::has_prefix("audio/flac"@, "audio"@ + "/"@),
        text::has_prefix("audio/ogg"@, "audio"@ + "/"@),
        text::has_prefix("audio/aac"@, "audio"@ + "/"@),
{
    reveal_strlit("audio");
    reveal_strlit("/");
    reveal_strlit("audio/wav");
    assert("audio/wav"@.subrange(0, 6) =~= "audio"@ + "/"@);
    reveal_strlit("audio/mpeg");
    assert("audio/mpeg"@.subrange(0, 6) =~= "audio"@ + "/"@);
    reveal_strlit("audio/flac");
    assert("audio/flac"@.subrange(0, 6) =~= "audio"@ + "/"@);
    reveal_strlit("audio/ogg");
    assert("audio/ogg"@.subrange(0, 6) =~= "audio"@ + "/"@);
    reveal_strlit("audio/aac");
    assert("audio/aac"@.subrange(0, 6) =~= "audio"@ + "/"@);
}

proof fn types_of_clips()
    ensures
        "video"@.len() > 0,
        text::has_prefix("video/mp4"@, "video"@ + "/"@),
        text::has_prefix("video/quicktime"@, "video"@ + "/"@),
        text::has_prefix("video/x-matroska"@, "video"@ + "/"@),
        text::has_prefix("video/webm"@, "video"@ + "/"@),
        text::has_prefix("video/x-msvideo"@, "video"@ + "/"@),
{
    reveal_strlit("video");
    reveal_strlit("/");
    reveal_strlit("video/mp4");
    assert("video/mp4"@.subrange(0, 6) =~= "video"@ + "/"@);
    reveal_strlit("video/quicktime");
    assert("video/quicktime"@.subrange(0, 6) =~= "video"@ + "/"@);
    reveal_strlit("video/x-matroska");
    assert("video/x-matroska"@.subrange(0, 6) =~= "video"@ + "/"@);
    reveal_strlit("video/webm");
    assert("video/webm"@.subrange(0, 6) =~= "video"@ + "/"@);
    reveal_strlit("video/x-msvideo");
    assert("video/x-msvideo"@.subrange(0, 6) =~= "video"@ + "/"@);
}

/// Capitals in an extension make no difference.
pub proof fn capitals_make_no_difference(a: Seq<char>, b: Seq<char>, windows: bool)
    requires
        text::lowered(crate::paths::extension_of(a, windows)) == text::lowered(
            crate::paths::extension_of(b, windows),
        ),
    ensures
        guessed(a, windows) == guessed(b, windows),
{
}

/// A command that attaches a file of a kind is named after the kind, and the one that is
/// not says none.
pub proof fn a_command_is_named_after_its_kind(kind: Seq<char>)
    ensures
        kind == "image"@ || kind == "audio"@ || kind == "video"@ ==> kind_said("/"@ + kind) == Some(
            kind,
        ),
        forall|command: Seq<char>| #[trigger]
            kind_said(command) matches Some(k) ==> command == "/"@ + k,
        kind_said("/attach"@) is None,
{
    reveal_strlit("/");
    reveal_strlit("/attach");
    reveal_strlit("/image");
    reveal_strlit("/audio");
    reveal_strlit("/video");
    reveal_strlit("image");
    reveal_strlit("audio");
    reveal_strlit("video");
    assert("/image"@ =~= "/"@ + "image"@);
    assert("/audio"@ =~= "/"@ + "audio"@);
    assert("/video"@ =~= "/"@ + "video"@);
    assert("/image"@[1] == 'i' && "/audio"@[1] == 'a' && "/video"@[1] == 'v');
    assert("/attach"@.len() == 7 && "/image"@.len() == 6 && "/audio"@.len() == 6 && "/video"@.len()
        == 6);
}

/// What goes along of a file is all that is in it, under the name of the file and of the
/// kind that is said, or else of the one that its extension stands for. Its type goes with
/// its extension whatever kind is said.
pub proof fn a_file_goes_along_as_it_is(
    dir: Seq<char>,
    name: Seq<char>,
    kind: Seq<char>,
    data: Seq<u8>,
)
    requires
        crate::paths::is_name(name, crate::paths::Seps::Slash),
    ensures
        ({
            let path = dir + "/"@ + name;
            let said = attached(path, Some(kind), data, false);
            let unsaid = attached(path, None, data, false);
            &&& said.data == data && unsaid.data == data
            &&& said.label == name && unsaid.label == name
            &&& said.kind == kind
            &&& unsaid.kind == media_of(text::lowered(crate::paths::extension_of(path, false))).0
            &&& said.mime == unsaid.mime
            &&& said.mime.len() > 0
        }),
{
    crate::paths::a_file_is_named_by_its_last_step(dir, name);
    reveal_strlit("application/octet-stream");
}

/// A file goes along exactly where its kind is known, it could be read and there is
/// something in it. That its kind is not known is said before anything else, and that it is
/// empty only of one that could be read.
pub proof fn a_file_goes_along_or_it_is_said_why(
    r: Result<Attachment, AttachmentError>,
    path: Seq<char>,
    forced: Option<Seq<char>>,
    content: Result<Vec<u8>, String>,
    windows: bool,
)
    requires
        comes_of(r, path, forced, content, windows),
    ensures
        r is Ok <==> kind_known(path, forced, windows) && content is Ok && content->Ok_0@.len() > 0,
        r matches Ok(a) ==> a.data@ == content->Ok_0@ && (forced matches Some(k) ==> a.kind@ == k),
        r matches Err(e) ==> (e is UnknownKind <==> forced is None && guessed(
            path,
            windows,
        ).0.len() == 0) && (e is Empty ==> content is Ok) && (e is Unreadable ==> content is Err),
{
}

/// Pictures are named first, then sounds, clips and those of which no kind is said; each
/// keeps its own path, and the order within each kind is kept.
pub proof fn files_are_named_kind_by_kind(
    images: Seq<String>,
    audio: Seq<String>,
    video: Seq<String>,
    media: Seq<String>,
    i: int,
)
    ensures
        ({
            let files = named(images, audio, video, media);
            let a = images.len() as int;
            let b = a + audio.len();
            let c = b + video.len();
            &&& files.len() == c + media.len()
            &&& 0 <= i < images.len() ==> files[i] == (images[i]@, Some("image"@))
            &&& 0 <= i < audio.len() ==> files[a + i] == (audio[i]@, Some("audio"@))
            &&& 0 <= i < video.len() ==> files[b + i] == (video[i]@, Some("video"@))
            &&& 0 <= i < media.len() ==> files[c + i].0 == media[i]@ && files[c + i].1 is None
        }),
{
}

/// What stands behind a command is one text, and it is found behind any white space: the
/// command, a space and a path without white space around it attach that path.
pub proof fn what_stands_behind_a_command_is_found(
    command: Seq<char>,
    path: Seq<char>,
    rest: Seq<char>,
)
    requires
        path.len() > 0,
        !text::is_space(path[0]),
        !text::is_space(path.last()),
        argument_of(command + " "@ + path, command, rest),
    ensures
        is_command(command + " "@ + path, command),
        rest == path,
{
    reveal_strlit(" ");
    let msg = command + " "@ + path;
    assert(msg.len() > command.len());
    assert(msg.subrange(0, command.len() as int) =~= command);
    let tail = msg.skip(command.len() as int);
    assert(tail =~= " "@ + path);
    assert(tail.subrange(1, tail.len() as int) =~= path);
    assert(text::trims_to(tail, path)) by {
        let i = 1int;
        let j = tail.len() as int;
        assert(tail[0] == ' ');
        assert(tail[1] == path[0] && tail[j - 1] == path.last());
    }
    text::trimming_gives_one_text(tail, path, rest);
}

/// Files of a known kind with something in them all go along: of such there is a list of what
/// goes along, and only one.
pub proof fn files_that_can_go_along_do(
    files: Seq<(Seq<char>, Option<Seq<char>>)>,
    contents: Seq<Result<Vec<u8>, String>>,
    n: int,
    windows: bool,
    v: Seq<AttachmentView>,
)
    requires
        0 <= n <= files.len(),
        n <= contents.len(),
        forall|i: int|
            0 <= i < n ==> kind_known((#[trigger] files[i]).0, files[i].1, windows) && contents[i]
                is Ok && contents[i]->Ok_0@.len() > 0,
        v == Seq::new(
            n as nat,
            |i: int| attached(files[i].0, files[i].1, contents[i]->Ok_0@, windows),
        ),
    ensures
        all_attached(v, files, contents, n, windows),
        forall|w: Seq<AttachmentView>|
            all_attached(w, files, contents, n, windows) ==> #[trigger] w.len() == n && w == v,
{
    assert forall|w: Seq<AttachmentView>| all_attached(
        w,
        files,
        contents,
        n,
        windows,
    ) implies #[trigger] w.len() == n && w == v by {
        assert forall|i: int| 0 <= i < n implies w[i] == v[i] by {
            assert(kind_known(files[i].0, files[i].1, windows));
        }
        assert(w =~= v);
    }
}

/// The extensions that are the name of a type of media stand for just that type of their kind.
pub proof fn a_type_is_named_after_its_extension(ext: Seq<char>)
    ensures
        ext == "png"@ || ext == "gif"@ || ext == "webp"@ || ext == "bmp"@ ==> media_of(ext).0
            == "image"@ && media_of(ext).1 == "image/"@ + ext,
        ext == "wav"@ || ext == "flac"@ || ext == "ogg"@ || ext == "aac"@ ==> media_of(ext).0
            == "audio"@ && media_of(ext).1 == "audio/"@ + ext,
        ext == "mp4"@ || ext == "webm"@ ==> media_of(ext).0 == "video"@ && media_of(ext).1
            == "video/"@ + ext,
{
    reveal_strlit("png");
    reveal_strlit("jpg");
    reveal_strlit("jpeg");
    reveal_strlit("gif");
    reveal_strlit("webp");
    reveal_strlit("bmp");
    reveal_strlit("tif");
    reveal_strlit("tiff");
    reveal_strlit("wav");
    reveal_strlit("mp3");
    reveal_strlit("flac");
    reveal_strlit("ogg");
    reveal_strlit("oga");
    reveal_strlit("m4a");
    reveal_strlit("aac");
    reveal_strlit("mp4");
    reveal_strlit("mov");
    reveal_strlit("mkv");
    reveal_strlit("webm");
    reveal_strlit("avi");
    reveal_strlit("image/");
    reveal_strlit("audio/");
    reveal_strlit("video/");
    reveal_strlit("image/png");
    assert("image/png"@ =~= "image/"@ + "png"@);
    reveal_strlit("image/gif");
    assert("image/gif"@ =~= "image/"@ + "gif"@);
    reveal_strlit("image/webp");
    assert("image/webp"@ =~= "image/"@ + "webp"@);
    reveal_strlit("image/bmp");
    assert("image/bmp"@ =~= "image/"@ + "bmp"@);
    reveal_strlit("audio/wav");
    assert("audio/wav"@ =~= "audio/"@ + "wav"@);
    reveal_strlit("audio/flac");
    assert("audio/flac"@ =~= "audio/"@ + "flac"@);
    reveal_strlit("audio/ogg");
    assert("audio/ogg"@ =~= "audio/"@ + "ogg"@);
    reveal_strlit("audio/aac");
    assert("audio/aac"@ =~= "audio/"@ + "aac"@);
    reveal_strlit("video/mp4");
    assert("video/mp4"@ =~= "video/"@ + "mp4"@);
    reveal_strlit("video/webm");
    assert("video/webm"@ =~= "video/"@ + "webm"@);
    assert("png"@.len() == 3 && "png"@[0] == 'p' && "png"@[1] == 'n' && "png"@[2]
        == 'g');
    assert("jpg"@.len() == 3 && "jpg"@[0] == 'j' && "jpg"@[1] == 'p' && "jpg"@[2]
        == 'g');
    assert("jpeg"@.len() == 4 && "jpeg"@[0] == 'j' && "jpeg"@[1] == 'p' && "jpeg"@[2]
        == 'e');
    assert("gif"@.len() == 3 && "gif"@[0] == 'g' && "gif"@[1] == 'i' && "gif"@[2]
        == 'f');
    assert("webp"@.len() == 4 && "webp"@[0] == 'w' && "webp"@[1] == 'e' && "webp"@[2]
        == 'b');
    assert("bmp"@.len() == 3 && "bmp"@[0] == 'b' && "bmp"@[1] == 'm' && "bmp"@[2]
        == 'p');
    assert("tif"@.len() == 3 && "tif"@[0] == 't' && "tif"@[1] == 'i' && "tif"@[2]
        == 'f');
    assert("tiff"@.len() == 4 && "tiff"@[0] == 't' && "tiff"@[1] == 'i' && "tiff"@[2]
        == 'f');
    assert("wav"@.len() == 3 && "wav"@[0] == 'w' && "wav"@[1] == 'a' && "wav"@[2]
        == 'v');
    assert("mp3"@.len() == 3 && "mp3"@[0] == 'm' && "mp3"@[1] == 'p' && "mp3"@[2]
        == '3');
    assert("flac"@.len() == 4 && "flac"@[0] == 'f' && "flac"@[1] == 'l' && "flac"@[2]
        == 'a');
    assert("ogg"@.len() == 3 && "ogg"@[0] == 'o' && "ogg"@[1] == 'g' && "ogg"@[2]
        == 'g');
    assert("oga"@.len() == 3 && "oga"@[0] == 'o' && "oga"@[1] == 'g' && "oga"@[2]
        == 'a');
    assert("m4a"@.len() == 3 && "m4a"@[0] == 'm' && "m4a"@[1] == '4' && "m4a"@[2]
        == 'a');
    assert("aac"@.len() == 3 && "aac"@[0] == 'a' && "aac"@[1] == 'a' && "aac"@[2]
        == 'c');
    assert("mp4"@.len() == 3 && "mp4"@[0] == 'm' && "mp4"@[1] == 'p' && "mp4"@[2]
        == '4');
    assert("mov"@.len() == 3 && "mov"@[0] == 'm' && "mov"@[1] == 'o' && "mov"@[2]
        == 'v');
    assert("mkv"@.len() == 3 && "mkv"@[0] == 'm' && "mkv"@[1] == 'k' && "mkv"@[2]
        == 'v');
    assert("webm"@.len() == 4 && "webm"@[0] == 'w' && "webm"@[1] == 'e' && "webm"@[2]
        == 'b');
    assert("avi"@.len() == 3 && "avi"@[0] == 'a' && "avi"@[1] == 'v' && "avi"@[2]
        == 'i');
    assert("webp"@[3] == 'p' && "webm"@[3] == 'm');
}

} // verus!
