# image_layer

Image layers of a page server: immutable files that hold an image of each page in
a range of keys, as of one position in the log. The library in `src/` builds such
files and looks pages up in them, and is verified with Verus.

- `key`, `ids`, `layer_name`, `layer_desc`: what a layer is, and how its file is
  named.
- `format`, `big_endian`, `blob`, `summary`, `btree_node`, `btree`: what the bytes
  of a file mean.
- `btree_build`, `writer`: building a file.
- `index_read`, `index_walk`, `reconstruct`, `image_layer`: loading a file, looking
  a key up in it, and showing its index.
- `stats`: counts of accesses.
- `text`: numbers and bytes as text.
- `laws`: what holds of all of these together. Carrying out the writes that the
  writer asks for gives a file that is loaded by its layer, and that gives back, for
  each key, the image that was put for it, or nothing if none was.

The library touches no file. `app/` does: it opens, reads, writes, renames and
removes the files as the library says.

Trusted are `hex::encode`, `bytes::Bytes::from` on a vector, and the random letters
and digits that `rand` gives for the names of temporary files.
