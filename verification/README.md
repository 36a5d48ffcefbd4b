# xlsxparser

Reads `.xlsx` workbooks: sheets with very many rows and columns and very many merged
cells, as business systems are full of. A workbook is kept sparse, so that what is not
on a sheet costs nothing.

The library under `src/` is verified with Verus. Its functions state what they return,
and that whatever a package holds, reading it ends in a workbook or in an `Error`.

## From a package to a workbook

`pipeline::run` takes the bytes of a package.

* `container` opens the archive, refuses entry names that lead out of it, and counts what
  is read against the caps of `SizeLimits`. A part that goes over a cap is read up to
  there: what stands before that point, and is wrong, is the error that comes out.
* `parse` reads one part each: relationships, the workbook, shared strings, styles, the
  theme, worksheets, drawings. A reader of a part is a state machine over XML events
  (`parse::part`). A document type declaration is refused in what is read of a part: of
  the theme nothing behind its color scheme is, and a part that nothing refers to is not
  opened at all.
* `resolve` puts in place what a worksheet only refers to: texts, styles, dates, column
  widths, merged ranges, hyperlinks.
* `model` is what comes out. A cell in a merged region reads as the region's first cell.
* `json` makes plain records of it.

Statements that hold of several functions together are the `law_..` proof functions,
next to what they speak of.

## What the library asks for

Numbers keep the notation that the package has for them (`number::Number`). Two are equal
if they denote the same double-precision number; `binary64` finds that number exactly,
with the arithmetic of `natural`. Where a value depends on floating-point operations, the
caller hands in a function: taking a date serial apart, placing a picture that lies in
groups, adjusting a color's luminance. `app/` has these functions, opens files, and writes
JSON.

## What is taken on trust

The archive is read with `zip` and XML with `quick-xml`. Their functions are called in
`container::archive` and `parse::xml`, each in a small function that says what is
believed of it.
