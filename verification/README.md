# pdfsigner

A small desktop PDF signer: drop a PDF, place a signature image, a date or a text,
black out what should not be read, save. The original text and structure of the file
stay as they are; what is placed is added as a layer of its own.

The library under `src/` holds everything that decides or computes, and is verified
with Verus. The program under `app/` shows windows, renders pages with pdfium, and
reads and writes files.

## Numbers

Lengths are whole ticks of a ten-thousandth of a point (or of a screen pixel). That is
the resolution at which coordinates are written into a PDF. What is scaled, resized or
measured is rounded to the nearest tick, and written as it then is. Positions are kept
within ten trillion points, and what has an extent is kept where all its corners are
positions.

## Modules

| Module     | What it holds                                                             |
|------------|---------------------------------------------------------------------------|
| `units`    | ticks, rounding, limits                                                   |
| `geom`     | rectangles, overlap and union, page rotation, word matching               |
| `overlay`  | images, texts, redactions and marks                                       |
| `merge`    | overlapping redactions and marks become one                               |
| `text`     | trimming, splitting, numbers, character and byte positions                |
| `numtext`  | decimal and hexadecimal texts of numbers                                  |
| `words`    | glyphs to words, words under a selection                                  |
| `pages`    | page ranges such as `1-3,5`                                               |
| `names`    | names of output files and of page resources                               |
| `files`    | kinds of files, the list of signatures, status messages                   |
| `stamp`    | dates                                                                     |
| `objects`  | PDF objects and documents                                                 |
| `pagedict` | page dictionaries: inherited entries, resources, content                  |
| `pagetree` | the order of pages, taking pages out                                      |
| `pruning`  | what remains when references to pages are taken out                       |
| `content`  | content stream operators                                                  |
| `font`     | font metrics, glyphs, font embedding                                      |
| `fontfile` | which font files are read                                                 |
| `picture`  | image objects and their soft masks                                        |
| `drawing`  | writing the overlays of one page                                          |
| `save`     | writing the overlays of a document                                        |
| `intact`   | what writing leaves as it was, and what it is sure to write               |
| `load`     | opening a document, and when it is to be normalised                       |
| `screen`   | scale and position of the page, hit testing                               |
| `app`      | the state, placing, deleting, duplicating, resizing, colours              |
| `input`    | keys, the wheel, dropped files                                            |
| `pointer`  | clicks, drags and rubber bands                                            |
| `editor`   | the inline text editor                                                    |
| `menus`    | signature menu, colour menu, help                                         |
| `panels`   | header and footer texts, how overlays are drawn, saving                   |

## What is trusted

Calls into `lopdf`, `ttf-parser`, `image` and `flate2` stand behind small wrappers and
specifications in `objects`, `pagetree`, `font` and `picture`. Each says in its
comment which function it stands for and what it claims of it.

## Running

The program needs the pdfium library at run time, the font file
`fonts/Inter-Regular.ttf` beside the program or below the working directory, and looks
for signatures in the directory that `PDFSIGNER_SIGNATURES` names.
