//! The HTML page that a visualization is embedded into.

use crate::text::occurs_at;
use vstd::prelude::*;

verus! {

/// The placeholder string in [`TEMPLATE`] that is replaced with the serialized model.
pub const DATA_PLACEHOLDER: &'static str = "/*__VORTEX_DATA__*/";

/// HTML template with a placeholder for the embedded JSON model.
///
/// The page has three linked views: a map of the whole file's bytes, a matrix of columns by row
/// ranges, and one byte track per column.
pub const TEMPLATE: &'static str = "<!DOCTYPE html>
<html lang='en'>
<head>
<meta charset='utf-8'>
<title>Vortex file layout</title>
<style>
body { font: 13px sans-serif; margin: 16px; color: #222; }
h1 { font-size: 18px; }
h2 { font-size: 14px; margin: 20px 0 6px; }
.track { position: relative; height: 18px; background: #f2f2f2; }
.track div { position: absolute; top: 0; bottom: 0; min-width: 1px; }
.row { display: flex; align-items: center; margin: 2px 0; }
.row .name { width: 200px; overflow: hidden; text-overflow: ellipsis; white-space: nowrap; }
.row .track { flex: 1; }
.hot { outline: 2px solid #d00; z-index: 1; }
#info { position: sticky; top: 0; background: #fff; padding: 6px 0; min-height: 18px; z-index: 2; }
pre { white-space: pre-wrap; background: #f7f7f7; padding: 8px; }
</style>
</head>
<body>
<h1 id='title'></h1>
<p id='summary'></p>
<div id='info'></div>
<h2>File bytes</h2>
<div class='track' id='file'></div>
<h2>Columns by rows</h2>
<div id='matrix'></div>
<h2>Columns by bytes</h2>
<div id='tracks'></div>
<h2>Schema</h2>
<pre id='schema'></pre>
<script>
let model = /*__VORTEX_DATA__*/;

function el(id) { return document.getElementById(id); }

function color(i) { return 'hsl(' + ((i * 47) % 360) + ', 60%, 60%)'; }

function percent(part, whole) { return whole > 0 ? (100 * part / whole) + '%' : '0'; }

function describe(name, offset, length, rows) {
  let text = name + ': bytes ' + offset + ' to ' + (offset + length) + ' (' + length + ')';
  return rows ? text + ', rows ' + rows : text;
}

function mark(key, on) {
  for (let box of document.querySelectorAll('[data-key=\"' + key + '\"]')) {
    box.classList.toggle('hot', on);
  }
}

function addBox(track, start, size, whole, fill, key, text) {
  let box = document.createElement('div');
  box.style.left = percent(start, whole);
  box.style.width = percent(size, whole);
  box.style.background = fill;
  box.dataset.key = key;
  box.title = text;
  box.onmouseenter = function () { el('info').textContent = text; mark(key, true); };
  box.onmouseleave = function () { mark(key, false); };
  track.appendChild(box);
}

function addRow(parent, name) {
  let row = document.createElement('div');
  row.className = 'row';
  let label = document.createElement('div');
  label.className = 'name';
  label.textContent = name;
  label.title = name;
  let track = document.createElement('div');
  track.className = 'track';
  row.appendChild(label);
  row.appendChild(track);
  parent.appendChild(row);
  return track;
}

el('title').textContent = model.file;
el('summary').textContent = model.file_size + ' bytes, ' + model.row_count + ' rows, '
  + model.columns.length + ' columns, ' + model.splits.length + ' splits';
el('schema').textContent = model.schema;

model.columns.forEach(function (column, c) {
  let matrix = addRow(el('matrix'), column.name);
  let track = addRow(el('tracks'), column.name);
  for (let i = 0; i < column.o.length; i++) {
    let key = c + '-' + i;
    let rows = column.ro[i] + ' to ' + (column.ro[i] + column.rc[i]);
    let name = column.name + ' / ' + model.seg_names[column.n[i]];
    let text = describe(name, column.o[i], column.l[i], rows);
    addBox(el('file'), column.o[i], column.l[i], model.file_size, color(c), key, text);
    addBox(track, column.o[i], column.l[i], model.file_size, color(c), key, text);
    addBox(matrix, column.ro[i], column.rc[i], model.row_count, color(column.n[i]), key, text);
  }
});

model.meta.forEach(function (range, m) {
  let text = describe(range.name, range.byte_offset, range.byte_length, '');
  addBox(el('file'), range.byte_offset, range.byte_length, model.file_size, '#444', 'm' + m, text);
});
</script>
</body>
</html>
";

/// Where the placeholder stands in [`TEMPLATE`].
pub open spec fn placeholder_at() -> int {
    1062
}

/// The template holds the placeholder exactly once: otherwise a page would have no data, or have it
/// in the wrong place.
#[verifier::rlimit(100)]
#[verifier::spinoff_prover]
pub proof fn law_template_has_one_placeholder()
    ensures
        forall|i: int| #[trigger]
            occurs_at(TEMPLATE@, DATA_PLACEHOLDER@, i) <==> i == placeholder_at(),
{
    reveal_strlit("/*__VORTEX_DATA__*/");
    // What the literal holds is learnt by writing it again.
    reveal_strlit(
        "<!DOCTYPE html>
<html lang='en'>
<head>
<meta charset='utf-8'>
<title>Vortex file layout</title>
<style>
body { font: 13px sans-serif; margin: 16px; color: #222; }
h1 { font-size: 18px; }
h2 { font-size: 14px; margin: 20px 0 6px; }
.track { position: relative; height: 18px; background: #f2f2f2; }
.track div { position: absolute; top: 0; bottom: 0; min-width: 1px; }
.row { display: flex; align-items: center; margin: 2px 0; }
.row .name { width: 200px; overflow: hidden; text-overflow: ellipsis; white-space: nowrap; }
.row .track { flex: 1; }
.hot { outline: 2px solid #d00; z-index: 1; }
#info { position: sticky; top: 0; background: #fff; padding: 6px 0; min-height: 18px; z-index: 2; }
pre { white-space: pre-wrap; background: #f7f7f7; padding: 8px; }
</style>
</head>
<body>
<h1 id='title'></h1>
<p id='summary'></p>
<div id='info'></div>
<h2>File bytes</h2>
<div class='track' id='file'></div>
<h2>Columns by rows</h2>
<div id='matrix'></div>
<h2>Columns by bytes</h2>
<div id='tracks'></div>
<h2>Schema</h2>
<pre id='schema'></pre>
<script>
let model = /*__VORTEX_DATA__*/;

function el(id) { return document.getElementById(id); }

function color(i) { return 'hsl(' + ((i * 47) % 360) + ', 60%, 60%)'; }

function percent(part, whole) { return whole > 0 ? (100 * part / whole) + '%' : '0'; }

function describe(name, offset, length, rows) {
  let text = name + ': bytes ' + offset + ' to ' + (offset + length) + ' (' + length + ')';
  return rows ? text + ', rows ' + rows : text;
}

function mark(key, on) {
  for (let box of document.querySelectorAll('[data-key=\"' + key + '\"]')) {
    box.classList.toggle('hot', on);
  }
}

function addBox(track, start, size, whole, fill, key, text) {
  let box = document.createElement('div');
  box.style.left = percent(start, whole);
  box.style.width = percent(size, whole);
  box.style.background = fill;
  box.dataset.key = key;
  box.title = text;
  box.onmouseenter = function () { el('info').textContent = text; mark(key, true); };
  box.onmouseleave = function () { mark(key, false); };
  track.appendChild(box);
}

function addRow(parent, name) {
  let row = document.createElement('div');
  row.className = 'row';
  let label = document.createElement('div');
  label.className = 'name';
  label.textContent = name;
  label.title = name;
  let track = document.createElement('div');
  track.className = 'track';
  row.appendChild(label);
  row.appendChild(track);
  parent.appendChild(row);
  return track;
}

el('title').textContent = model.file;
el('summary').textContent = model.file_size + ' bytes, ' + model.row_count + ' rows, '
  + model.columns.length + ' columns, ' + model.splits.length + ' splits';
el('schema').textContent = model.schema;

model.columns.forEach(function (column, c) {
  let matrix = addRow(el('matrix'), column.name);
  let track = addRow(el('tracks'), column.name);
  for (let i = 0; i < column.o.length; i++) {
    let key = c + '-' + i;
    let rows = column.ro[i] + ' to ' + (column.ro[i] + column.rc[i]);
    let name = column.name + ' / ' + model.seg_names[column.n[i]];
    let text = describe(name, column.o[i], column.l[i], rows);
    addBox(el('file'), column.o[i], column.l[i], model.file_size, color(c), key, text);
    addBox(track, column.o[i], column.l[i], model.file_size, color(c), key, text);
    addBox(matrix, column.ro[i], column.rc[i], model.row_count, color(column.n[i]), key, text);
  }
});

model.meta.forEach(function (range, m) {
  let text = describe(range.name, range.byte_offset, range.byte_length, '');
  addBox(el('file'), range.byte_offset, range.byte_length, model.file_size, '#444', 'm' + m, text);
});
</script>
</body>
</html>
",
    );
    let template = TEMPLATE@;
    let pattern = DATA_PLACEHOLDER@;
    let at = placeholder_at();
    assert(template.subrange(at, at + pattern.len()) =~= pattern);
    // few places have the pattern's second character, and one of them its third
    assert forall|k: int| 0 <= k < template.len() && #[trigger] template[k] == '*' implies k == 1063 || k == 1079 || k == 1181 || k == 1270 by {}
    assert forall|i: int| #[trigger] occurs_at(template, pattern, i) implies i == at by {
        let window = template.subrange(i, i + pattern.len());
        assert(window[1] == template[i + 1]);
        assert(window[2] == template[i + 2]);
    }
}

} // verus!
